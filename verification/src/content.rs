//! What the converter keeps of any input: every number and operator, as
//! often as it stands there, and the numbers in their order.

use crate::postfix::{pop_operators, pop_to_open, shunt, to_postfix, yields_to, Yard};
use crate::token::TokenView;
use vstd::prelude::*;
use vstd::seq_lib::{lemma_multiset_commutative, to_multiset_build};

verus! {

/// How often `t` stands in `tokens`.
pub open spec fn occurrences(tokens: Seq<TokenView>, t: TokenView) -> nat {
    tokens.to_multiset().count(t)
}

/// The numbers among `tokens`, in their order.
pub open spec fn numbers(tokens: Seq<TokenView>) -> Seq<TokenView> {
    tokens.filter(|t: TokenView| t is Number)
}

/// Whatever the input, the postfix form holds each number and each operator
/// as often as the input does.
pub proof fn lemma_postfix_keeps_tokens(tokens: Seq<TokenView>, t: TokenView)
    requires
        !(t is Bracket),
    ensures
        occurrences(to_postfix(tokens), t) == occurrences(tokens, t),
{
    let yard = shunt(tokens);
    lemma_shunt_occurrences(tokens, t);
    lemma_multiset_commutative(yard.output, yard.stack.reverse());
    yard.stack.lemma_reverse_to_multiset();
}

/// Whatever the input, the numbers stand in the postfix form in the order
/// in which they stand in the input.
pub proof fn lemma_postfix_keeps_number_order(tokens: Seq<TokenView>)
    ensures
        numbers(to_postfix(tokens)) == numbers(tokens),
{
    let yard = shunt(tokens);
    let number = |t: TokenView| t is Number;
    lemma_shunt_numbers(tokens);
    Seq::filter_distributes_over_add(yard.output, yard.stack.reverse(), number);
    lemma_numbers_reverse(yard.stack);
    assert(numbers(yard.output) + numbers(yard.stack.reverse()) =~= numbers(yard.output));
}

/// How often `t` stands in a sequence with one more entry.
proof fn lemma_occurrences_push(tokens: Seq<TokenView>, x: TokenView, t: TokenView)
    ensures
        occurrences(tokens.push(x), t) == occurrences(tokens, t) + if x == t {
            1nat
        } else {
            0nat
        },
{
    to_multiset_build(tokens, x);
}

/// An entry that moves from the stack to the output is counted as before.
proof fn lemma_move_top(yard: Yard, t: TokenView)
    requires
        yard.stack.len() > 0,
    ensures
        occurrences(yard.output.push(yard.stack.last()), t) + occurrences(
            yard.stack.drop_last(),
            t,
        ) == occurrences(yard.output, t) + occurrences(yard.stack, t),
{
    lemma_occurrences_push(yard.output, yard.stack.last(), t);
    lemma_occurrences_push(yard.stack.drop_last(), yard.stack.last(), t);
    assert(yard.stack.drop_last().push(yard.stack.last()) =~= yard.stack);
}

/// Popping for an operator keeps every token, on the stack or in the output.
proof fn lemma_pop_operators_occurrences(yard: Yard, rank: nat, t: TokenView)
    ensures
        occurrences(pop_operators(yard, rank).output, t) + occurrences(
            pop_operators(yard, rank).stack,
            t,
        ) == occurrences(yard.output, t) + occurrences(yard.stack, t),
    decreases yard.stack.len(),
{
    if yard.stack.len() > 0 && yields_to(yard.stack.last(), rank) {
        lemma_move_top(yard, t);
        lemma_pop_operators_occurrences(
            Yard { output: yard.output.push(yard.stack.last()), stack: yard.stack.drop_last() },
            rank,
            t,
        );
    }
}

/// Popping for a closing bracket keeps every token, on the stack or in the
/// output.
proof fn lemma_pop_to_open_occurrences(yard: Yard, t: TokenView)
    ensures
        occurrences(pop_to_open(yard).output, t) + occurrences(pop_to_open(yard).stack, t)
            == occurrences(yard.output, t) + occurrences(yard.stack, t),
        pop_to_open(yard).stack.len() > 0 ==> pop_to_open(yard).stack.last().is_open(),
    decreases yard.stack.len(),
{
    if yard.stack.len() > 0 && yard.stack.last() != TokenView::Bracket('(') {
        lemma_move_top(yard, t);
        lemma_pop_to_open_occurrences(
            Yard { output: yard.output.push(yard.stack.last()), stack: yard.stack.drop_last() },
            t,
        );
    }
}

/// At every point the converter holds each number and operator taken so
/// far, in its output or on its stack.
proof fn lemma_shunt_occurrences(tokens: Seq<TokenView>, t: TokenView)
    requires
        !(t is Bracket),
    ensures
        occurrences(shunt(tokens).output, t) + occurrences(shunt(tokens).stack, t) == occurrences(
            tokens,
            t,
        ),
    decreases tokens.len(),
{
    if tokens.len() == 0 {
        assert(tokens =~= Seq::<TokenView>::empty());
        assert(shunt(tokens).output =~= Seq::<TokenView>::empty());
        assert(shunt(tokens).stack =~= Seq::<TokenView>::empty());
        assert(Seq::<TokenView>::empty().to_multiset().count(t) == 0) by {
            broadcast use vstd::seq_lib::group_to_multiset_ensures;

        }
        assert(occurrences(tokens, t) == 0);
    } else {
        let x = tokens.last();
        let front = tokens.drop_last();
        let yard = shunt(front);
        lemma_shunt_occurrences(front, t);
        assert(front.push(x) =~= tokens);
        lemma_occurrences_push(front, x, t);
        match x {
            TokenView::Number(_) => {
                lemma_occurrences_push(yard.output, x, t);
            },
            TokenView::Operator(op) => {
                lemma_pop_operators_occurrences(yard, op.spec_rank(), t);
                lemma_occurrences_push(pop_operators(yard, op.spec_rank()).stack, x, t);
            },
            TokenView::Bracket(c) => {
                if c == '(' {
                    lemma_occurrences_push(yard.stack, x, t);
                } else if c == ')' {
                    lemma_pop_to_open_occurrences(yard, t);
                    let popped = pop_to_open(yard);
                    if popped.stack.len() > 0 {
                        lemma_occurrences_push(popped.stack.drop_last(), popped.stack.last(), t);
                        assert(popped.stack.drop_last().push(popped.stack.last()) =~= popped.stack);
                    }
                }
            },
        }
    }
}

/// No entry of `stack` is a number.
pub open spec fn number_free(stack: Seq<TokenView>) -> bool {
    forall|i: int| 0 <= i < stack.len() ==> !(#[trigger] stack[i] is Number)
}

/// A sequence without numbers has none in reverse either.
proof fn lemma_numbers_reverse(stack: Seq<TokenView>)
    requires
        number_free(stack),
    ensures
        numbers(stack.reverse()).len() == 0,
{
    let number = |t: TokenView| t is Number;
    assert(stack.reverse().all(|t: TokenView| !number(t)));
    stack.reverse().lemma_all_neg_filter_empty(number);
}

/// Popping for an operator adds no number to the output.
proof fn lemma_pop_operators_numbers(yard: Yard, rank: nat)
    requires
        number_free(yard.stack),
    ensures
        numbers(pop_operators(yard, rank).output) == numbers(yard.output),
        number_free(pop_operators(yard, rank).stack),
    decreases yard.stack.len(),
{
    if yard.stack.len() > 0 && yields_to(yard.stack.last(), rank) {
        yard.output.lemma_filter_push(yard.stack.last(), |t: TokenView| t is Number);
        lemma_pop_operators_numbers(
            Yard { output: yard.output.push(yard.stack.last()), stack: yard.stack.drop_last() },
            rank,
        );
    }
}

/// Popping for a closing bracket adds no number to the output.
proof fn lemma_pop_to_open_numbers(yard: Yard)
    requires
        number_free(yard.stack),
    ensures
        numbers(pop_to_open(yard).output) == numbers(yard.output),
        number_free(pop_to_open(yard).stack),
    decreases yard.stack.len(),
{
    if yard.stack.len() > 0 && yard.stack.last() != TokenView::Bracket('(') {
        assert(!(yard.stack[yard.stack.len() - 1] is Number));
        yard.output.lemma_filter_push(yard.stack.last(), |t: TokenView| t is Number);
        lemma_pop_to_open_numbers(
            Yard { output: yard.output.push(yard.stack.last()), stack: yard.stack.drop_last() },
        );
    }
}

/// At every point the output holds the numbers taken so far, in their
/// order, and the stack holds none.
proof fn lemma_shunt_numbers(tokens: Seq<TokenView>)
    ensures
        numbers(shunt(tokens).output) == numbers(tokens),
        number_free(shunt(tokens).stack),
    decreases tokens.len(),
{
    let number = |t: TokenView| t is Number;
    if tokens.len() == 0 {
        assert(tokens =~= shunt(tokens).output);
    } else {
        let x = tokens.last();
        let front = tokens.drop_last();
        let yard = shunt(front);
        lemma_shunt_numbers(front);
        assert(front.push(x) =~= tokens);
        front.lemma_filter_push(x, number);
        match x {
            TokenView::Number(_) => {
                yard.output.lemma_filter_push(x, number);
            },
            TokenView::Operator(op) => {
                lemma_pop_operators_numbers(yard, op.spec_rank());
            },
            TokenView::Bracket(c) => {
                if c == ')' {
                    lemma_pop_to_open_numbers(yard);
                }
            },
        }
    }
}

} // verus!
