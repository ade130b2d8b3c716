//! The value stack on which a postfix sequence is reduced.

use crate::token::{views, Operators, Token, TokenView};
use crate::tree::Tree;
use crate::Calculator;
use vstd::prelude::*;

verus! {

/// The height of the value stack after the token `t`, given its height
/// before: a number adds a value, an operator replaces two values by one,
/// a bracket changes nothing. `None` where an operator finds fewer than two
/// values, and from then on.
pub open spec fn count_token(count: Option<nat>, t: TokenView) -> Option<nat> {
    match count {
        Some(n) => match t {
            TokenView::Number(_) => Some(n + 1),
            TokenView::Operator(_) => if n >= 2 {
                Some((n - 1) as nat)
            } else {
                None
            },
            TokenView::Bracket(_) => Some(n),
        },
        None => None,
    }
}

/// The number of values that reducing `tokens` from left to right leaves on
/// the value stack, or `None` where some operator lacks an operand.
pub open spec fn values_after(tokens: Seq<TokenView>) -> Option<nat>
    decreases tokens.len(),
{
    if tokens.len() == 0 {
        Some(0)
    } else {
        count_token(values_after(tokens.drop_last()), tokens.last())
    }
}

/// The value stack after the token `t`, with expressions for values: a
/// number is pushed; an operator takes the top of the stack as its right
/// operand and the entry below as its left operand, and pushes the two
/// combined; a bracket changes nothing. `None` where an operator finds
/// fewer than two values, and from then on.
pub open spec fn reduce_token(stack: Option<Seq<Tree>>, t: TokenView) -> Option<Seq<Tree>> {
    match stack {
        Some(values) => match t {
            TokenView::Number(n) => Some(values.push(Tree::Leaf(n))),
            TokenView::Operator(op) => if values.len() >= 2 {
                let right = values[values.len() - 1];
                let left = values[values.len() - 2];
                Some(
                    values.take(values.len() - 2).push(
                        Tree::Node(op, Box::new(left), Box::new(right)),
                    ),
                )
            } else {
                None
            },
            TokenView::Bracket(_) => Some(values),
        },
        None => None,
    }
}

/// The value stack after `tokens`, taken from left to right, starting from
/// `stack`.
pub open spec fn reduce_from(stack: Option<Seq<Tree>>, tokens: Seq<TokenView>) -> Option<
    Seq<Tree>,
>
    decreases tokens.len(),
{
    if tokens.len() == 0 {
        stack
    } else {
        reduce_token(reduce_from(stack, tokens.drop_last()), tokens.last())
    }
}

/// The value stack that reducing `tokens` leaves, starting from an empty
/// one.
pub open spec fn reduce(tokens: Seq<TokenView>) -> Option<Seq<Tree>> {
    reduce_from(Some(Seq::empty()), tokens)
}

/// `value` is a value of the expression `tree` in the arithmetic that
/// `number` and `apply` give: `number` turns a number into a value, and
/// `apply` combines the values of a left and a right operand.
pub open spec fn computes<V, N: Fn(u32) -> V, A: Fn(Operators, V, V) -> V>(
    number: N,
    apply: A,
    tree: Tree,
    value: V,
) -> bool
    decreases tree,
{
    match tree {
        Tree::Leaf(n) => n <= u32::MAX && call_ensures(number, (n as u32,), value),
        Tree::Node(op, left, right) => exists|l: V, r: V|
            {
                &&& computes(number, apply, *left, l)
                &&& computes(number, apply, *right, r)
                &&& #[trigger] call_ensures(apply, (op, l, r), value)
            },
    }
}

impl Calculator {
    /// Reduces the postfix sequence `tokens` on a value stack, in the
    /// arithmetic that the caller hands in: `number` turns a number into a
    /// value, `apply` combines two values. A number is pushed; an operator
    /// pops its right operand, then its left operand, and pushes what
    /// `apply` makes of them; brackets are passed over. The result is the
    /// one value left at the end, and `None` where none or more than one
    /// is left.
    pub fn evaluate<V, N: Fn(u32) -> V, A: Fn(Operators, V, V) -> V>(
        tokens: Vec<Token>,
        number: N,
        apply: A,
    ) -> (r: Option<V>)
        requires
            values_after(views(tokens@)) is Some,
            forall|n: u32| call_requires(number, (n,)),
            forall|op: Operators, left: V, right: V| call_requires(apply, (op, left, right)),
        ensures
            r is Some <==> values_after(views(tokens@)) == Some(1nat),
            r matches Some(value) ==> computes(
                number,
                apply,
                reduce(views(tokens@))->Some_0[0],
                value,
            ),
    {
        let mut stack: Vec<V> = Vec::new();
        let mut i: usize = 0;
        assert(views(tokens@).take(0) =~= Seq::<TokenView>::empty());
        while i < tokens.len()
            invariant
                i <= tokens.len(),
                values_after(views(tokens@)) is Some,
                forall|n: u32| call_requires(number, (n,)),
                forall|op: Operators, left: V, right: V| call_requires(apply, (op, left, right)),
                reduce(views(tokens@).take(i as int)) is Some,
                reduce(views(tokens@).take(i as int))->Some_0.len() == stack@.len(),
                forall|j: int|
                    0 <= j < stack@.len() ==> computes(
                        number,
                        apply,
                        #[trigger] reduce(views(tokens@).take(i as int))->Some_0[j],
                        stack@[j],
                    ),
            decreases tokens.len() - i,
        {
            let ghost before = reduce(views(tokens@).take(i as int))->Some_0;
            proof {
                assert(views(tokens@).take(i + 1).drop_last() =~= views(tokens@).take(i as int));
                lemma_values_count_trees(views(tokens@).take(i as int));
                lemma_values_count_trees(views(tokens@).take(i + 1));
                if values_after(views(tokens@).take(i + 1)) is None {
                    lemma_underflow_stays(views(tokens@), i + 1, tokens@.len() as int);
                    assert(views(tokens@).take(tokens@.len() as int) =~= views(tokens@));
                }
            }
            match tokens[i] {
                Token::Number(n) => {
                    let value = number(n);
                    stack.push(value);
                },
                Token::Operator(op) => {
                    let right = stack.pop().unwrap();
                    let left = stack.pop().unwrap();
                    let value = apply(op, left, right);
                    stack.push(value);
                    proof {
                        let l = before[before.len() - 2];
                        let r = before[before.len() - 1];
                        assert(computes(number, apply, l, left));
                        assert(computes(number, apply, r, right));
                        lemma_computes_node(number, apply, op, l, r, left, right, value);
                    }
                },
                Token::Bracket(_) => {},
            }
            i += 1;
        }
        proof {
            assert(views(tokens@).take(tokens@.len() as int) =~= views(tokens@));
            lemma_values_count_trees(views(tokens@));
        }
        if stack.len() > 1 {
            None
        } else {
            stack.pop()
        }
    }

    /// Runs the value stack over `tokens` without computing any value:
    /// returns how many values are left at the end, or `None` where an
    /// operator has fewer than two values to work on. A postfix sequence
    /// has a result exactly where this is `Some(1)`.
    pub fn value_count(tokens: &Vec<Token>) -> (r: Option<usize>)
        ensures
            match r {
                Some(n) => values_after(views(tokens@)) == Some(n as nat),
                None => values_after(views(tokens@)) is None,
            },
    {
        let mut count: usize = 0;
        let mut i: usize = 0;
        assert(views(tokens@).take(0) =~= Seq::<TokenView>::empty());
        while i < tokens.len()
            invariant
                i <= tokens.len(),
                count <= i,
                values_after(views(tokens@).take(i as int)) == Some(count as nat),
            decreases tokens.len() - i,
        {
            assert(views(tokens@).take(i + 1).drop_last() =~= views(tokens@).take(i as int));
            match tokens[i] {
                Token::Number(_) => {
                    count += 1;
                },
                Token::Operator(_) => {
                    if count < 2 {
                        proof {
                            lemma_underflow_stays(views(tokens@), i + 1, tokens@.len() as int);
                            assert(views(tokens@).take(tokens@.len() as int) =~= views(tokens@));
                        }
                        return None;
                    }
                    count -= 1;
                },
                Token::Bracket(_) => {},
            }
            i += 1;
        }
        assert(views(tokens@).take(tokens@.len() as int) =~= views(tokens@));
        Some(count)
    }
}

/// The height of the value stack is the number of expressions on it.
pub proof fn lemma_values_count_trees(tokens: Seq<TokenView>)
    ensures
        values_after(tokens) == match reduce(tokens) {
            Some(values) => Some(values.len()),
            None => None,
        },
    decreases tokens.len(),
{
    if tokens.len() > 0 {
        lemma_values_count_trees(tokens.drop_last());
    }
}

/// The postfix order of an expression reduces to that expression alone.
pub proof fn lemma_postorder_is_one_value(tree: Tree)
    ensures
        reduce(tree.postorder()) == Some(seq![tree]),
{
    lemma_postorder_reduces(Seq::empty(), tree);
    assert(Seq::<Tree>::empty().push(tree) =~= seq![tree]);
}

/// Where `number` and `apply` return what the functions `number_of` and
/// `apply_of` say, the value of an expression is its fold over those
/// functions.
pub proof fn lemma_computes_fold<V, N: Fn(u32) -> V, A: Fn(Operators, V, V) -> V>(
    number: N,
    apply: A,
    number_of: spec_fn(nat) -> V,
    apply_of: spec_fn(Operators, V, V) -> V,
    tree: Tree,
    value: V,
)
    requires
        forall|n: u32, v: V| call_ensures(number, (n,), v) ==> v == number_of(n as nat),
        forall|op: Operators, l: V, r: V, v: V|
            call_ensures(apply, (op, l, r), v) ==> v == apply_of(op, l, r),
        computes(number, apply, tree, value),
    ensures
        value == tree.fold(number_of, apply_of),
    decreases tree,
{
    match tree {
        Tree::Leaf(n) => {},
        Tree::Node(op, left, right) => {
            let (l, r) = choose|l: V, r: V|
                {
                    &&& computes(number, apply, *left, l)
                    &&& computes(number, apply, *right, r)
                    &&& #[trigger] call_ensures(apply, (op, l, r), value)
                };
            lemma_computes_fold(number, apply, number_of, apply_of, *left, l);
            lemma_computes_fold(number, apply, number_of, apply_of, *right, r);
        },
    }
}

/// The height of the value stack after one more token.
pub proof fn lemma_values_push(tokens: Seq<TokenView>, t: TokenView)
    ensures
        values_after(tokens.push(t)) == count_token(values_after(tokens), t),
{
    assert(tokens.push(t).drop_last() =~= tokens);
}

/// Once an operator has lacked an operand, every longer prefix lacks it too.
pub proof fn lemma_underflow_stays(tokens: Seq<TokenView>, j: int, k: int)
    requires
        0 <= j <= k <= tokens.len(),
        values_after(tokens.take(j)) is None,
    ensures
        values_after(tokens.take(k)) is None,
    decreases k - j,
{
    if j < k {
        lemma_underflow_stays(tokens, j, k - 1);
        assert(tokens.take(k).drop_last() =~= tokens.take(k - 1));
    }
}

/// Reducing one sequence after another.
pub proof fn lemma_reduce_concat(stack: Option<Seq<Tree>>, a: Seq<TokenView>, b: Seq<TokenView>)
    ensures
        reduce_from(stack, a + b) == reduce_from(reduce_from(stack, a), b),
    decreases b.len(),
{
    if b.len() == 0 {
        assert(a + b =~= a);
    } else {
        lemma_reduce_concat(stack, a, b.drop_last());
        assert((a + b).drop_last() =~= a + b.drop_last());
    }
}

/// Reducing a single token.
pub proof fn lemma_reduce_single(stack: Option<Seq<Tree>>, t: TokenView)
    ensures
        reduce_from(stack, seq![t]) == reduce_token(stack, t),
{
    assert(seq![t].drop_last() =~= Seq::<TokenView>::empty());
    assert(reduce_from(stack, Seq::<TokenView>::empty()) == stack);
}

/// Reducing the postfix order of an expression pushes that expression and
/// leaves the rest of the stack as it was.
pub proof fn lemma_postorder_reduces(values: Seq<Tree>, tree: Tree)
    ensures
        reduce_from(Some(values), tree.postorder()) == Some(values.push(tree)),
    decreases tree,
{
    match tree {
        Tree::Leaf(n) => {
            lemma_reduce_single(Some(values), TokenView::Number(n));
        },
        Tree::Node(op, left, right) => {
            let last = seq![TokenView::Operator(op)];
            lemma_reduce_concat(Some(values), left.postorder() + right.postorder(), last);
            lemma_reduce_concat(Some(values), left.postorder(), right.postorder());
            lemma_postorder_reduces(values, *left);
            lemma_postorder_reduces(values.push(*left), *right);
            let both = values.push(*left).push(*right);
            lemma_reduce_single(Some(both), TokenView::Operator(op));
            assert(both.take(both.len() - 2) =~= values);
        },
    }
}

/// The value of an operator's expression, from the values of its operands.
proof fn lemma_computes_node<V, N: Fn(u32) -> V, A: Fn(Operators, V, V) -> V>(
    number: N,
    apply: A,
    op: Operators,
    left: Tree,
    right: Tree,
    l: V,
    r: V,
    value: V,
)
    requires
        computes(number, apply, left, l),
        computes(number, apply, right, r),
        call_ensures(apply, (op, l, r), value),
    ensures
        computes(number, apply, Tree::Node(op, Box::new(left), Box::new(right)), value),
{
}

} // verus!
