//! What the postfix form of balanced and of well-formed tokens is sure to be.

use crate::infix::{infix, lemma_infix_depth, well_formed};
use crate::postfix::{
    bracket_free, pop_operators, pop_to_open, shunt, to_postfix, yields_to, Yard,
};
use crate::reduce::{lemma_values_push, values_after};
use crate::token::{balanced, bracket_depth, TokenView};
use vstd::prelude::*;

verus! {

/// The postfix form of tokens with balanced brackets holds no bracket.
pub proof fn lemma_postfix_bracket_free(tokens: Seq<TokenView>)
    requires
        balanced(tokens),
    ensures
        bracket_free(to_postfix(tokens)),
{
    lemma_shunt_brackets(tokens);
    lemma_only_operators(shunt(tokens).stack);
}

/// The postfix form of a well-formed infix expression holds no bracket and
/// reduces to exactly one value, with two operands there for each operator.
pub proof fn lemma_postfix_valid(tokens: Seq<TokenView>)
    requires
        well_formed(tokens),
    ensures
        bracket_free(to_postfix(tokens)),
        values_after(to_postfix(tokens)) == Some(1nat),
{
    lemma_infix_depth(tokens);
    lemma_postfix_bracket_free(tokens);
    lemma_shunt_values(tokens);
    lemma_shunt_brackets(tokens);
    lemma_only_operators(shunt(tokens).stack);
    lemma_flush_values(shunt(tokens).output, shunt(tokens).stack);
}

/// Every entry of the stack is an operator or an open bracket.
pub open spec fn waiting(stack: Seq<TokenView>) -> bool {
    forall|i: int| 0 <= i < stack.len() ==> (#[trigger] stack[i] is Operator || stack[i].is_open())
}

/// The number of open brackets on the stack.
pub open spec fn opens(stack: Seq<TokenView>) -> nat
    decreases stack.len(),
{
    if stack.len() == 0 {
        0
    } else {
        opens(stack.drop_last()) + if stack.last().is_open() {
            1nat
        } else {
            0nat
        }
    }
}

/// The number of operators on the stack.
pub open spec fn operators(stack: Seq<TokenView>) -> nat
    decreases stack.len(),
{
    if stack.len() == 0 {
        0
    } else {
        operators(stack.drop_last()) + if stack.last() is Operator {
            1nat
        } else {
            0nat
        }
    }
}

/// While the brackets of `tokens` nest, the converter emits no bracket,
/// keeps only operators and open brackets on its stack, and has as many
/// open brackets there as `tokens` leaves open.
pub proof fn lemma_shunt_brackets(tokens: Seq<TokenView>)
    requires
        bracket_depth(tokens) is Some,
    ensures
        bracket_free(shunt(tokens).output),
        waiting(shunt(tokens).stack),
        Some(opens(shunt(tokens).stack)) == bracket_depth(tokens),
    decreases tokens.len(),
{
    if tokens.len() > 0 {
        let t = tokens.last();
        let yard = shunt(tokens.drop_last());
        lemma_shunt_brackets(tokens.drop_last());
        match t {
            TokenView::Number(_) => {},
            TokenView::Operator(op) => {
                lemma_pop_operators(yard, op.spec_rank());
                lemma_counts_push(pop_operators(yard, op.spec_rank()).stack, t);
            },
            TokenView::Bracket(c) => {
                if c == '(' {
                    lemma_counts_push(yard.stack, t);
                } else if c == ')' {
                    lemma_pop_to_open(yard);
                    let popped = pop_to_open(yard);
                    assert(popped.stack.len() > 0) by {
                        if popped.stack.len() == 0 {
                            assert(opens(popped.stack) == 0);
                        }
                    }
                }
            },
        }
    }
}

/// While `tokens` can begin an infix expression, the converter has emitted
/// what leaves one value for each operator that waits on its stack, and one
/// more where an operand has just ended.
pub proof fn lemma_shunt_values(tokens: Seq<TokenView>)
    requires
        infix(tokens) is Some,
    ensures
        values_after(shunt(tokens).output) == Some(
            operators(shunt(tokens).stack) + if infix(tokens)->Some_0.complete {
                1nat
            } else {
                0nat
            },
        ),
    decreases tokens.len(),
{
    if tokens.len() > 0 {
        let t = tokens.last();
        let front = tokens.drop_last();
        let yard = shunt(front);
        lemma_shunt_values(front);
        lemma_infix_depth(front);
        lemma_shunt_brackets(front);
        match t {
            TokenView::Number(_) => {
                lemma_values_push(yard.output, t);
            },
            TokenView::Operator(op) => {
                lemma_pop_operators(yard, op.spec_rank());
                lemma_counts_push(pop_operators(yard, op.spec_rank()).stack, t);
            },
            TokenView::Bracket(c) => {
                if c == '(' {
                    lemma_counts_push(yard.stack, t);
                } else {
                    lemma_pop_to_open(yard);
                    let popped = pop_to_open(yard);
                    assert(popped.stack.len() > 0) by {
                        if popped.stack.len() == 0 {
                            assert(opens(popped.stack) == 0);
                        }
                    }
                }
            },
        }
    }
}

/// Both counts after one more entry.
proof fn lemma_counts_push(stack: Seq<TokenView>, t: TokenView)
    ensures
        opens(stack.push(t)) == opens(stack) + if t.is_open() {
            1nat
        } else {
            0nat
        },
        operators(stack.push(t)) == operators(stack) + if t is Operator {
            1nat
        } else {
            0nat
        },
{
    assert(stack.push(t).drop_last() =~= stack);
}

/// Popping for an operator moves operators only: the output stays free of
/// brackets, the open brackets stay on the stack, and the output still
/// leaves one value more than operators wait.
proof fn lemma_pop_operators(yard: Yard, rank: nat)
    requires
        bracket_free(yard.output),
        waiting(yard.stack),
    ensures
        bracket_free(pop_operators(yard, rank).output),
        waiting(pop_operators(yard, rank).stack),
        opens(pop_operators(yard, rank).stack) == opens(yard.stack),
        values_after(yard.output) == Some(operators(yard.stack) + 1) ==> values_after(
            pop_operators(yard, rank).output,
        ) == Some(operators(pop_operators(yard, rank).stack) + 1),
    decreases yard.stack.len(),
{
    if yard.stack.len() > 0 && yields_to(yard.stack.last(), rank) {
        let next = Yard {
            output: yard.output.push(yard.stack.last()),
            stack: yard.stack.drop_last(),
        };
        lemma_values_push(yard.output, yard.stack.last());
        lemma_pop_operators(next, rank);
    }
}

/// Popping for a closing bracket moves operators only and stops below an
/// open bracket, if there is one.
proof fn lemma_pop_to_open(yard: Yard)
    requires
        bracket_free(yard.output),
        waiting(yard.stack),
    ensures
        bracket_free(pop_to_open(yard).output),
        waiting(pop_to_open(yard).stack),
        opens(pop_to_open(yard).stack) == opens(yard.stack),
        pop_to_open(yard).stack.len() > 0 ==> pop_to_open(yard).stack.last().is_open(),
        values_after(yard.output) == Some(operators(yard.stack) + 1) ==> values_after(
            pop_to_open(yard).output,
        ) == Some(operators(pop_to_open(yard).stack) + 1),
    decreases yard.stack.len(),
{
    if yard.stack.len() > 0 && yard.stack.last() != TokenView::Bracket('(') {
        let next = Yard {
            output: yard.output.push(yard.stack.last()),
            stack: yard.stack.drop_last(),
        };
        assert(yard.stack[yard.stack.len() - 1] is Operator);
        lemma_values_push(yard.output, yard.stack.last());
        lemma_pop_to_open(next);
    }
}

/// A stack without open brackets holds operators only.
proof fn lemma_only_operators(stack: Seq<TokenView>)
    requires
        waiting(stack),
        opens(stack) == 0,
    ensures
        bracket_free(stack),
        operators(stack) == stack.len(),
    decreases stack.len(),
{
    if stack.len() > 0 {
        let front = stack.drop_last();
        assert(stack[stack.len() - 1] is Operator);
        assert forall|i: int| 0 <= i < front.len() implies (#[trigger] front[i] is Operator
            || front[i].is_open()) by {
            assert(front[i] == stack[i]);
        }
        lemma_only_operators(front);
        assert forall|i: int| 0 <= i < stack.len() implies !(#[trigger] stack[i] is Bracket) by {
            if i < front.len() {
                assert(front[i] == stack[i]);
            }
        }
    }
}

/// Emitting a stack of operators onto an output that leaves one value more
/// than there are operators leaves one value.
proof fn lemma_flush_values(output: Seq<TokenView>, stack: Seq<TokenView>)
    requires
        waiting(stack),
        opens(stack) == 0,
        values_after(output) == Some(stack.len() + 1),
    ensures
        values_after(output + stack.reverse()) == Some(1nat),
    decreases stack.len(),
{
    if stack.len() == 0 {
        assert(output + stack.reverse() =~= output);
    } else {
        let top = stack.last();
        let rest = stack.drop_last();
        lemma_only_operators(stack);
        assert(stack[stack.len() - 1] is Operator);
        assert forall|i: int| 0 <= i < rest.len() implies (#[trigger] rest[i] is Operator
            || rest[i].is_open()) by {
            assert(rest[i] == stack[i]);
        }
        lemma_values_push(output, top);
        lemma_flush_values(output.push(top), rest);
        assert(output + stack.reverse() =~= output.push(top) + rest.reverse());
    }
}

} // verus!
