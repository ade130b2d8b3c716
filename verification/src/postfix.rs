//! Reordering infix tokens into postfix order.

use crate::infix::well_formed;
use crate::reduce::values_after;
use crate::token::{balanced, views, Token, TokenView};
use crate::validity::{lemma_postfix_bracket_free, lemma_postfix_valid};
use crate::Calculator;
use vstd::prelude::*;

verus! {

/// The converter's state: what has been emitted, and the operators and
/// open brackets that wait on the stack (its top is the last entry).
pub struct Yard {
    pub output: Seq<TokenView>,
    pub stack: Seq<TokenView>,
}

/// Whether the stack entry `top` gives way to an incoming operator of the
/// rank `rank`: it is an operator that binds at least as tightly.
pub open spec fn yields_to(top: TokenView, rank: nat) -> bool {
    top matches TokenView::Operator(op) && op.spec_rank() >= rank
}

/// Moves entries from the top of the stack to the output for as long as
/// they give way to an operator of the rank `rank`.
pub open spec fn pop_operators(yard: Yard, rank: nat) -> Yard
    decreases yard.stack.len(),
{
    if yard.stack.len() > 0 && yields_to(yard.stack.last(), rank) {
        pop_operators(
            Yard { output: yard.output.push(yard.stack.last()), stack: yard.stack.drop_last() },
            rank,
        )
    } else {
        yard
    }
}

/// Moves entries from the top of the stack to the output until an open
/// bracket is on top or the stack is empty.
pub open spec fn pop_to_open(yard: Yard) -> Yard
    decreases yard.stack.len(),
{
    if yard.stack.len() > 0 && yard.stack.last() != TokenView::Bracket('(') {
        pop_to_open(
            Yard { output: yard.output.push(yard.stack.last()), stack: yard.stack.drop_last() },
        )
    } else {
        yard
    }
}

/// The state after the token `t`.
pub open spec fn shunt_token(yard: Yard, t: TokenView) -> Yard {
    match t {
        TokenView::Number(_) => Yard { output: yard.output.push(t), stack: yard.stack },
        TokenView::Operator(op) => {
            let popped = pop_operators(yard, op.spec_rank());
            Yard { output: popped.output, stack: popped.stack.push(t) }
        },
        TokenView::Bracket(c) => if c == '(' {
            Yard { output: yard.output, stack: yard.stack.push(t) }
        } else if c == ')' {
            let popped = pop_to_open(yard);
            if popped.stack.len() > 0 {
                Yard { output: popped.output, stack: popped.stack.drop_last() }
            } else {
                popped
            }
        } else {
            yard
        },
    }
}

/// The state after all of `tokens`, taken from left to right, starting
/// from `yard`.
pub open spec fn shunt_from(yard: Yard, tokens: Seq<TokenView>) -> Yard
    decreases tokens.len(),
{
    if tokens.len() == 0 {
        yard
    } else {
        shunt_token(shunt_from(yard, tokens.drop_last()), tokens.last())
    }
}

/// The state after all of `tokens`, starting with nothing emitted and an
/// empty stack.
pub open spec fn shunt(tokens: Seq<TokenView>) -> Yard {
    shunt_from(Yard { output: Seq::empty(), stack: Seq::empty() }, tokens)
}

/// The postfix form of `tokens`: what the converter emitted, followed by
/// what is left on its stack, top first.
pub open spec fn to_postfix(tokens: Seq<TokenView>) -> Seq<TokenView> {
    let yard = shunt(tokens);
    yard.output + yard.stack.reverse()
}

/// No entry of `tokens` is a bracket.
pub open spec fn bracket_free(tokens: Seq<TokenView>) -> bool {
    forall|i: int| 0 <= i < tokens.len() ==> !(#[trigger] tokens[i] is Bracket)
}

/// Whether the stack entry `top` gives way to an operator of the rank `rank`.
fn gives_way(top: Token, rank: u8) -> (b: bool)
    ensures
        b == yields_to(top@, rank as nat),
{
    match top {
        Token::Operator(op) => op.rank() >= rank,
        _ => false,
    }
}

/// Whether `token` is an open bracket.
fn is_open(token: Token) -> (b: bool)
    ensures
        b == (token@ == TokenView::Bracket('(')),
{
    match token {
        Token::Bracket(c) => c == '(',
        _ => false,
    }
}

impl Calculator {
    /// Reorders infix `tokens` into postfix order: an operator waits on a
    /// stack until one that binds no tighter arrives, its bracket closes or
    /// the input ends; brackets themselves are dropped.
    pub fn expression(tokens: Vec<Token>) -> (r: Vec<Token>)
        ensures
            views(r@) == to_postfix(views(tokens@)),
            balanced(views(tokens@)) ==> bracket_free(views(r@)),
            well_formed(views(tokens@)) ==> values_after(views(r@)) == Some(1nat),
    {
        proof {
            if balanced(views(tokens@)) {
                lemma_postfix_bracket_free(views(tokens@));
            }
            if well_formed(views(tokens@)) {
                lemma_postfix_valid(views(tokens@));
            }
        }
        let mut queue: Vec<Token> = Vec::new();
        let mut stack: Vec<Token> = Vec::new();
        let mut i: usize = 0;
        assert(views(tokens@).take(0) =~= Seq::<TokenView>::empty());
        assert(views(queue@) =~= Seq::<TokenView>::empty());
        assert(views(stack@) =~= Seq::<TokenView>::empty());
        while i < tokens.len()
            invariant
                i <= tokens.len(),
                shunt(views(tokens@).take(i as int)) == (Yard {
                    output: views(queue@),
                    stack: views(stack@),
                }),
            decreases tokens.len() - i,
        {
            let token = tokens[i];
            let ghost before = Yard { output: views(queue@), stack: views(stack@) };
            proof {
                lemma_shunt_step(views(tokens@), i as int);
            }
            match token {
                Token::Number(_) => {
                    queue.push(token);
                    assert(views(queue@) =~= before.output.push(token@));
                },
                Token::Operator(op) => {
                    let rank: u8 = op.rank();
                    while stack.len() > 0 && gives_way(stack[stack.len() - 1], rank)
                        invariant
                            pop_operators(
                                Yard { output: views(queue@), stack: views(stack@) },
                                rank as nat,
                            ) == pop_operators(before, rank as nat),
                        decreases stack.len(),
                    {
                        let ghost yard = Yard { output: views(queue@), stack: views(stack@) };
                        let top = stack.pop().unwrap();
                        queue.push(top);
                        assert(views(queue@) =~= yard.output.push(yard.stack.last()));
                        assert(views(stack@) =~= yard.stack.drop_last());
                    }
                    let ghost popped = Yard { output: views(queue@), stack: views(stack@) };
                    stack.push(token);
                    assert(views(stack@) =~= popped.stack.push(token@));
                },
                Token::Bracket(c) => {
                    if c == '(' {
                        stack.push(token);
                        assert(views(stack@) =~= before.stack.push(token@));
                    } else if c == ')' {
                        while stack.len() > 0 && !is_open(stack[stack.len() - 1])
                            invariant
                                pop_to_open(Yard { output: views(queue@), stack: views(stack@) })
                                    == pop_to_open(before),
                            decreases stack.len(),
                        {
                            let ghost yard = Yard { output: views(queue@), stack: views(stack@) };
                            let top = stack.pop().unwrap();
                            queue.push(top);
                            assert(views(queue@) =~= yard.output.push(yard.stack.last()));
                            assert(views(stack@) =~= yard.stack.drop_last());
                        }
                        let ghost popped = Yard { output: views(queue@), stack: views(stack@) };
                        stack.pop();
                        assert(popped.stack.len() > 0 ==> views(stack@) =~= popped.stack.drop_last());
                    }
                },
            }
            i += 1;
        }
        assert(views(tokens@).take(tokens@.len() as int) =~= views(tokens@));
        while stack.len() > 0
            invariant
                views(queue@) + views(stack@).reverse() == to_postfix(views(tokens@)),
            decreases stack.len(),
        {
            let ghost rest = views(stack@);
            let ghost done = views(queue@);
            let top = stack.pop().unwrap();
            queue.push(top);
            assert(views(queue@) + views(stack@).reverse() =~= done + rest.reverse());
        }
        assert(views(queue@) + views(stack@).reverse() =~= views(queue@));
        queue
    }
}

/// The converter moves over `tokens` one token at a time.
pub proof fn lemma_shunt_step(tokens: Seq<TokenView>, k: int)
    requires
        0 <= k < tokens.len(),
    ensures
        shunt(tokens.take(k + 1)) == shunt_token(shunt(tokens.take(k)), tokens[k]),
{
    assert(tokens.take(k + 1).drop_last() =~= tokens.take(k));
}

/// Converting one sequence after another.
pub proof fn lemma_shunt_concat(yard: Yard, a: Seq<TokenView>, b: Seq<TokenView>)
    ensures
        shunt_from(yard, a + b) == shunt_from(shunt_from(yard, a), b),
    decreases b.len(),
{
    if b.len() == 0 {
        assert(a + b =~= a);
    } else {
        lemma_shunt_concat(yard, a, b.drop_last());
        assert((a + b).drop_last() =~= a + b.drop_last());
    }
}

/// Converting a single token.
pub proof fn lemma_shunt_single(yard: Yard, t: TokenView)
    ensures
        shunt_from(yard, seq![t]) == shunt_token(yard, t),
{
    assert(seq![t].drop_last() =~= Seq::<TokenView>::empty());
    assert(shunt_from(yard, Seq::<TokenView>::empty()) == yard);
}

} // verus!
