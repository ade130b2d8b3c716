//! The converter reads an expression as it is meant: by precedence, from the
//! left, and by brackets.

use crate::infix::Syntax;
use crate::postfix::{
    lemma_shunt_concat, lemma_shunt_single, pop_operators, pop_to_open, shunt_from, shunt_token,
    to_postfix, yields_to, Yard,
};
use crate::reduce::{lemma_postorder_is_one_value, reduce};
use crate::token::TokenView;
use vstd::prelude::*;

verus! {

/// The converter resolves precedence, grouping from the left and brackets:
/// the postfix form of a written expression is the postfix order of the
/// expression that is meant.
pub proof fn lemma_postfix_of_syntax(e: Syntax)
    requires
        e.follows_precedence(),
    ensures
        to_postfix(e.tokens()) == e.tree().postorder(),
{
    let start = Yard { output: Seq::empty(), stack: Seq::empty() };
    lemma_shunt_syntax(start, e);
    lemma_emitted_pending(e);
    assert(start.output + emitted(e) =~= emitted(e));
    assert(start.stack + pending(e) =~= pending(e));
}

/// Reducing the postfix form of a written expression gives the expression
/// that is meant, and nothing else.
pub proof fn lemma_postfix_reduces_to_tree(e: Syntax)
    requires
        e.follows_precedence(),
    ensures
        reduce(to_postfix(e.tokens())) == Some(seq![e.tree()]),
{
    lemma_postfix_of_syntax(e);
    lemma_postorder_is_one_value(e.tree());
}

/// The operators of the written expression `e` that are still on the stack
/// when its last token has been taken, bottom first: its own operator and
/// those down the right-hand operands.
pub open spec fn pending(e: Syntax) -> Seq<TokenView>
    decreases e,
{
    match e {
        Syntax::Binary(op, _, right) => seq![TokenView::Operator(op)] + pending(*right),
        _ => Seq::empty(),
    }
}

/// What the converter has emitted of the written expression `e` when its
/// last token has been taken.
pub open spec fn emitted(e: Syntax) -> Seq<TokenView>
    decreases e,
{
    match e {
        Syntax::Number(n) => seq![TokenView::Number(n)],
        Syntax::Group(inner) => inner.tree().postorder(),
        Syntax::Binary(_, left, right) => left.tree().postorder() + emitted(*right),
    }
}

/// Every entry of `stack` is an operator of the rank `rank` at least.
pub open spec fn binds_from(stack: Seq<TokenView>, rank: nat) -> bool {
    forall|i: int|
        0 <= i < stack.len() ==> (#[trigger] stack[i] matches TokenView::Operator(op)
            && op.spec_rank() >= rank)
}

/// Whether an expression of the strength `strength` may follow on a stack:
/// the stack is empty, or its top is an open bracket or an operator that
/// binds less tightly.
pub open spec fn admits(stack: Seq<TokenView>, strength: nat) -> bool {
    stack.len() > 0 ==> stack.last().is_open() || (stack.last() matches TokenView::Operator(op)
        && op.spec_rank() < strength)
}

/// Taking the tokens of a written expression leaves the earlier output and
/// stack in place, emits the operands in postfix order and keeps on top of
/// the stack the operators whose right-hand operand may still go on.
pub proof fn lemma_shunt_syntax(yard: Yard, e: Syntax)
    requires
        e.follows_precedence(),
        admits(yard.stack, e.strength()),
    ensures
        shunt_from(yard, e.tokens()) == (Yard {
            output: yard.output + emitted(e),
            stack: yard.stack + pending(e),
        }),
    decreases e,
{
    match e {
        Syntax::Number(n) => {
            lemma_shunt_single(yard, TokenView::Number(n));
            assert(yard.output + emitted(e) =~= yard.output.push(TokenView::Number(n)));
            assert(yard.stack + pending(e) =~= yard.stack);
        },
        Syntax::Group(inner) => {
            let open = TokenView::Bracket('(');
            let close = TokenView::Bracket(')');
            lemma_shunt_concat(yard, seq![open] + inner.tokens(), seq![close]);
            lemma_shunt_concat(yard, seq![open], inner.tokens());
            lemma_shunt_single(yard, open);
            let y1 = Yard { output: yard.output, stack: yard.stack.push(open) };
            lemma_shunt_syntax(y1, *inner);
            let y2 = Yard { output: y1.output + emitted(*inner), stack: y1.stack + pending(*inner) };
            lemma_shunt_single(y2, close);
            lemma_pending_binds(*inner);
            assert(binds_from(pending(*inner), 0));
            lemma_pop_pending_to_open(y2.output, y1.stack, pending(*inner));
            lemma_emitted_pending(*inner);
            assert(y1.stack.drop_last() =~= yard.stack);
            assert(yard.output + emitted(*inner) + pending(*inner).reverse() =~= yard.output + (
            emitted(*inner) + pending(*inner).reverse()));
            assert(yard.stack + pending(e) =~= yard.stack);
        },
        Syntax::Binary(op, left, right) => {
            let middle = TokenView::Operator(op);
            let rank = op.spec_rank();
            lemma_shunt_concat(yard, left.tokens() + seq![middle], right.tokens());
            lemma_shunt_concat(yard, left.tokens(), seq![middle]);
            lemma_shunt_syntax(yard, *left);
            let y1 = Yard { output: yard.output + emitted(*left), stack: yard.stack + pending(*left) };
            lemma_shunt_single(y1, middle);
            lemma_pending_binds(*left);
            assert(binds_from(pending(*left), rank));
            lemma_pop_pending(y1.output, yard.stack, pending(*left), rank);
            lemma_emitted_pending(*left);
            let y2 = Yard {
                output: yard.output + left.tree().postorder(),
                stack: yard.stack.push(middle),
            };
            assert(yard.output + emitted(*left) + pending(*left).reverse() =~= yard.output + (
            emitted(*left) + pending(*left).reverse()));
            assert(shunt_token(y1, middle) == y2);
            lemma_shunt_syntax(y2, *right);
            assert(y2.output + emitted(*right) =~= yard.output + emitted(e));
            assert(y2.stack + pending(*right) =~= yard.stack + pending(e));
        },
    }
}

/// The operators that a written expression leaves on the stack bind at
/// least as tightly as the expression holds together.
proof fn lemma_pending_binds(e: Syntax)
    requires
        e.follows_precedence(),
    ensures
        binds_from(pending(e), e.strength()),
    decreases e,
{
    match e {
        Syntax::Binary(op, _, right) => {
            lemma_pending_binds(*right);
            let rest = pending(*right);
            let all = seq![TokenView::Operator(op)] + rest;
            assert forall|i: int| 0 <= i < all.len() implies (#[trigger] all[i] matches TokenView::Operator(
                o,
            ) && o.spec_rank() >= e.strength()) by {
                if i > 0 {
                    assert(all[i] == rest[i - 1]);
                }
            }
        },
        _ => {},
    }
}

/// What has been emitted of a written expression, followed by what it left
/// on the stack, top first, is the postfix order of the expression meant.
proof fn lemma_emitted_pending(e: Syntax)
    ensures
        emitted(e) + pending(e).reverse() == e.tree().postorder(),
    decreases e,
{
    match e {
        Syntax::Number(n) => {
            assert(emitted(e) + pending(e).reverse() =~= emitted(e));
        },
        Syntax::Group(inner) => {
            assert(emitted(e) + pending(e).reverse() =~= emitted(e));
        },
        Syntax::Binary(op, left, right) => {
            lemma_emitted_pending(*right);
            let head = seq![TokenView::Operator(op)];
            assert((head + pending(*right)).reverse() =~= pending(*right).reverse() + head);
            assert(emitted(e) + pending(e).reverse() =~= left.tree().postorder() + (emitted(*right)
                + pending(*right).reverse()) + head);
        },
    }
}

/// An operator pops all of `top`, whose operators bind at least as tightly,
/// and stops at `base`, whose top does not give way.
proof fn lemma_pop_pending(output: Seq<TokenView>, base: Seq<TokenView>, top: Seq<TokenView>, rank: nat)
    requires
        binds_from(top, rank),
        base.len() > 0 ==> !yields_to(base.last(), rank),
    ensures
        pop_operators(Yard { output, stack: base + top }, rank) == (Yard {
            output: output + top.reverse(),
            stack: base,
        }),
    decreases top.len(),
{
    if top.len() == 0 {
        assert(base + top =~= base);
        assert(output + top.reverse() =~= output);
    } else {
        let last = top.last();
        assert(top[top.len() - 1] is Operator);
        assert((base + top).last() == last);
        assert((base + top).drop_last() =~= base + top.drop_last());
        assert forall|i: int| 0 <= i < top.drop_last().len() implies (
        #[trigger] top.drop_last()[i] matches TokenView::Operator(o) && o.spec_rank() >= rank) by {
            assert(top.drop_last()[i] == top[i]);
        }
        lemma_pop_pending(output.push(last), base, top.drop_last(), rank);
        assert(output.push(last) + top.drop_last().reverse() =~= output + top.reverse());
    }
}

/// A closing bracket pops all of `top`, which are operators, and stops at
/// the open bracket on top of `base`.
proof fn lemma_pop_pending_to_open(output: Seq<TokenView>, base: Seq<TokenView>, top: Seq<TokenView>)
    requires
        binds_from(top, 0),
        base.len() > 0 ==> base.last().is_open(),
    ensures
        pop_to_open(Yard { output, stack: base + top }) == (Yard {
            output: output + top.reverse(),
            stack: base,
        }),
    decreases top.len(),
{
    if top.len() == 0 {
        assert(base + top =~= base);
        assert(output + top.reverse() =~= output);
    } else {
        let last = top.last();
        assert(top[top.len() - 1] is Operator);
        assert((base + top).last() == last);
        assert((base + top).drop_last() =~= base + top.drop_last());
        assert forall|i: int| 0 <= i < top.drop_last().len() implies (
        #[trigger] top.drop_last()[i] matches TokenView::Operator(o) && o.spec_rank() >= 0) by {
            assert(top.drop_last()[i] == top[i]);
        }
        lemma_pop_pending_to_open(output.push(last), base, top.drop_last());
        assert(output.push(last) + top.drop_last().reverse() =~= output + top.reverse());
    }
}

} // verus!
