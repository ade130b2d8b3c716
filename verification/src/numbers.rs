//! The numbers that the scanner forms: their value, and the 32 bits that
//! they must fit in.

use crate::lexer::{
    digit_value, is_digit, numbers_fit, push_digit, scan, tokenize, within_u32, Scan,
};
use crate::token::{Error, TokenView};
use vstd::prelude::*;

verus! {

/// The number that a string of decimal digits denotes; 0 for the empty one.
pub open spec fn decimal(digits: Seq<char>) -> nat
    decreases digits.len(),
{
    if digits.len() == 0 {
        0
    } else {
        decimal(digits.drop_last()) * 10 + digit_value(digits.last())
    }
}

/// Whether every character of `text` is a decimal digit.
pub open spec fn all_digits(text: Seq<char>) -> bool {
    forall|i: int| 0 <= i < text.len() ==> is_digit(#[trigger] text[i])
}

/// A non-empty string of decimal digits is one number token, the number
/// that the string denotes; the scanner stays within 32 bits on it exactly
/// where that number does.
pub proof fn lemma_digits_are_one_number(text: Seq<char>)
    requires
        text.len() > 0,
        all_digits(text),
    ensures
        tokenize(text) == Ok::<Seq<TokenView>, Error>(seq![TokenView::Number(decimal(text))]),
        numbers_fit(text) <==> decimal(text) <= u32::MAX,
{
    lemma_scan_digits(text);
    assert(text.take(text.len() as int) =~= text);
    let whole = seq![TokenView::Number(decimal(text))];
    if numbers_fit(text) {
        assert(scan(text.take(text.len() as int)) is Ok);
        assert(within_u32(whole));
        assert(whole[0] == TokenView::Number(decimal(text)));
    }
    if decimal(text) <= u32::MAX {
        assert forall|k: int| 0 <= k <= text.len() implies (#[trigger] scan(text.take(k)) matches Ok(
            st,
        ) ==> within_u32(st.tokens)) by {
            if k > 0 {
                let prefix = text.take(k);
                assert forall|i: int| 0 <= i < prefix.len() implies is_digit(
                    #[trigger] prefix[i],
                ) by {
                    assert(prefix[i] == text[i]);
                }
                lemma_scan_digits(prefix);
                lemma_decimal_grows(text, k);
            }
        }
    }
}

/// Numbers only grow while the scanner runs: where it reaches the end of
/// `text`, it has stayed within 32 bits exactly where the numbers that it
/// ends with fit in 32 bits.
pub proof fn lemma_fit_at_end(text: Seq<char>)
    ensures
        scan(text) matches Ok(st) ==> (numbers_fit(text) <==> within_u32(st.tokens)),
{
    if let Ok(st) = scan(text) {
        assert(text.take(text.len() as int) =~= text);
        if within_u32(st.tokens) {
            lemma_fit_from_end(text);
        }
    }
}

/// On a text of nine characters or fewer the scanner stays within 32 bits.
pub proof fn lemma_short_text_fits(text: Seq<char>)
    requires
        text.len() <= 9,
    ensures
        numbers_fit(text),
{
    assert(ten_to(9) == 1_000_000_000) by {
        reveal_with_fuel(ten_to, 10);
    }
    assert forall|k: int| 0 <= k <= text.len() implies (#[trigger] scan(text.take(k)) matches Ok(
        st,
    ) ==> within_u32(st.tokens)) by {
        lemma_scan_below(text.take(k));
        lemma_ten_to_grows(k as nat, 9);
    }
}

/// The power of ten with the exponent `k`.
pub open spec fn ten_to(k: nat) -> nat
    decreases k,
{
    if k == 0 {
        1
    } else {
        10 * ten_to((k - 1) as nat)
    }
}

/// Every number among `tokens` is less than `bound`.
pub open spec fn below(tokens: Seq<TokenView>, bound: nat) -> bool {
    forall|i: int|
        0 <= i < tokens.len() ==> (#[trigger] tokens[i] matches TokenView::Number(n) ==> n < bound)
}

/// A number that the scanner forms has no more digits than the text has
/// characters.
pub proof fn lemma_scan_below(text: Seq<char>)
    ensures
        scan(text) matches Ok(st) ==> below(st.tokens, ten_to(text.len())),
    decreases text.len(),
{
    if text.len() > 0 {
        let front = text.drop_last();
        lemma_scan_below(front);
        lemma_ten_to_grows(front.len(), text.len());
        if let Ok(before) = scan(front) {
            if let Ok(st) = scan(text) {
                let c = text.last();
                assert forall|i: int| 0 <= i < st.tokens.len() implies (
                #[trigger] st.tokens[i] matches TokenView::Number(n) ==> n < ten_to(text.len())) by {
                    if i < before.tokens.len() && st.tokens[i] == before.tokens[i] {
                    } else if is_digit(c) {
                        if i < before.tokens.len() {
                            assert(before.tokens[i] is Number);
                        }
                    }
                }
            }
        }
    }
}

/// After a non-empty string of digits the scanner holds one token, the
/// number that the string denotes, and no open bracket.
pub proof fn lemma_scan_digits(text: Seq<char>)
    requires
        text.len() > 0,
        all_digits(text),
    ensures
        scan(text) == Ok::<Scan, Error>(
            Scan { tokens: seq![TokenView::Number(decimal(text))], open: 0 },
        ),
    decreases text.len(),
{
    let front = text.drop_last();
    let d = digit_value(text.last());
    assert(is_digit(text[text.len() - 1]));
    if front.len() == 0 {
        assert(decimal(front) == 0);
        assert(scan(front) == Ok::<Scan, Error>(Scan { tokens: Seq::empty(), open: 0 }));
        assert(push_digit(Seq::empty(), d) =~= seq![TokenView::Number(decimal(text))]);
    } else {
        assert forall|i: int| 0 <= i < front.len() implies is_digit(#[trigger] front[i]) by {
            assert(front[i] == text[i]);
        }
        lemma_scan_digits(front);
        assert(push_digit(seq![TokenView::Number(decimal(front))], d) =~= seq![
            TokenView::Number(decimal(text)),
        ]);
    }
}

/// A prefix of a digit string denotes no more than the whole string.
proof fn lemma_decimal_grows(digits: Seq<char>, k: int)
    requires
        0 <= k <= digits.len(),
    ensures
        decimal(digits.take(k)) <= decimal(digits),
    decreases digits.len() - k,
{
    if k < digits.len() {
        lemma_decimal_grows(digits, k + 1);
        assert(digits.take(k + 1).drop_last() =~= digits.take(k));
    } else {
        assert(digits.take(k) =~= digits);
    }
}

/// Where the tokens at the end fit in 32 bits, those on the way did.
proof fn lemma_fit_from_end(text: Seq<char>)
    requires
        scan(text) matches Ok(st) && within_u32(st.tokens),
    ensures
        numbers_fit(text),
    decreases text.len(),
{
    if text.len() > 0 {
        let front = text.drop_last();
        let st = scan(text)->Ok_0;
        let before = scan(front)->Ok_0;
        assert forall|i: int| 0 <= i < before.tokens.len() implies (
        #[trigger] before.tokens[i] matches TokenView::Number(n) ==> n <= u32::MAX) by {
            if i < st.tokens.len() && st.tokens[i] == before.tokens[i] {
            } else {
                assert(st.tokens[i] is Number);
            }
        }
        lemma_fit_from_end(front);
    }
    assert forall|k: int| 0 <= k <= text.len() implies (#[trigger] scan(text.take(k)) matches Ok(
        st,
    ) ==> within_u32(st.tokens)) by {
        if k < text.len() {
            assert(text.take(k) =~= text.drop_last().take(k));
        } else {
            assert(text.take(k) =~= text);
        }
    }
}

/// Powers of ten are positive and grow with the exponent.
proof fn lemma_ten_to_grows(j: nat, k: nat)
    requires
        j <= k,
    ensures
        1 <= ten_to(j) <= ten_to(k),
    decreases k,
{
    if j < k {
        lemma_ten_to_grows(j, (k - 1) as nat);
    } else if k > 0 {
        lemma_ten_to_grows((j - 1) as nat, (k - 1) as nat);
    }
}

} // verus!
