//! Splitting a text into tokens.

use crate::token::{
    balanced, bracket_depth, lemma_depth_push, proper, views, Error, Operators, Token, TokenView,
};
use crate::Calculator;
use vstd::prelude::*;

verus! {

/// Whether `c` is one of the ten decimal digits.
pub open spec fn is_digit(c: char) -> bool {
    '0' <= c <= '9'
}

/// The value of the decimal digit `c`.
pub open spec fn digit_value(c: char) -> nat
    recommends
        is_digit(c),
{
    (c as int - '0' as int) as nat
}

/// What the scanner holds after a prefix of the text: the tokens produced
/// so far and the number of brackets that are open.
pub struct Scan {
    pub tokens: Seq<TokenView>,
    pub open: nat,
}

/// Appends the digit `d`: to the last token where that is a number, as a
/// new number otherwise.
pub open spec fn push_digit(tokens: Seq<TokenView>, d: nat) -> Seq<TokenView> {
    if tokens.len() > 0 && tokens.last() is Number {
        tokens.drop_last().push(TokenView::Number(tokens.last()->Number_0 * 10 + d))
    } else {
        tokens.push(TokenView::Number(d))
    }
}

/// One step of the scanner: the state after the character `c`, or the
/// error that `c` raises.
pub open spec fn scan_char(st: Scan, c: char) -> Result<Scan, Error> {
    if is_digit(c) {
        Ok(Scan { tokens: push_digit(st.tokens, digit_value(c)), open: st.open })
    } else if c == '(' {
        Ok(Scan { tokens: st.tokens.push(TokenView::Bracket('(')), open: st.open + 1 })
    } else if c == ')' {
        if st.open == 0 {
            Err(Error::ParensMismatch)
        } else {
            Ok(Scan { tokens: st.tokens.push(TokenView::Bracket(')')), open: (st.open - 1) as nat })
        }
    } else if c == '+' {
        Ok(Scan { tokens: st.tokens.push(TokenView::Operator(Operators::Adition)), ..st })
    } else if c == '-' {
        Ok(Scan { tokens: st.tokens.push(TokenView::Operator(Operators::Substruction)), ..st })
    } else if c == '*' {
        Ok(Scan { tokens: st.tokens.push(TokenView::Operator(Operators::Multiplication)), ..st })
    } else if c == '/' {
        Ok(Scan { tokens: st.tokens.push(TokenView::Operator(Operators::Division)), ..st })
    } else if c == ' ' || c == '\n' {
        Ok(st)
    } else {
        Err(Error::BadToken(c))
    }
}

/// The scanner's state after the whole of `text`, or the first error met.
pub open spec fn scan(text: Seq<char>) -> Result<Scan, Error>
    decreases text.len(),
{
    if text.len() == 0 {
        Ok(Scan { tokens: Seq::empty(), open: 0 })
    } else {
        match scan(text.drop_last()) {
            Ok(st) => scan_char(st, text.last()),
            Err(e) => Err(e),
        }
    }
}

/// The tokens of `text`: those the scanner produced, provided that no
/// bracket is left open at the end.
pub open spec fn tokenize(text: Seq<char>) -> Result<Seq<TokenView>, Error> {
    match scan(text) {
        Ok(st) => if st.open == 0 {
            Ok(st.tokens)
        } else {
            Err(Error::ParensMismatch)
        },
        Err(e) => Err(e),
    }
}

/// Every number among `tokens` fits in 32 bits.
pub open spec fn within_u32(tokens: Seq<TokenView>) -> bool {
    forall|i: int|
        0 <= i < tokens.len() ==> (#[trigger] tokens[i] matches TokenView::Number(n) ==> n
            <= u32::MAX)
}

/// Every number that the scanner forms on its way through `text`, up to
/// the end or to the first error, fits in 32 bits.
pub open spec fn numbers_fit(text: Seq<char>) -> bool {
    forall|k: int|
        0 <= k <= text.len() ==> (#[trigger] scan(text.take(k)) matches Ok(st) ==> within_u32(
            st.tokens,
        ))
}

/// `result` is what tokenising `text` gives.
pub open spec fn parsed(text: Seq<char>, result: Result<Vec<Token>, Error>) -> bool {
    match tokenize(text) {
        Ok(tokens) => result matches Ok(v) && views(v@) == tokens,
        Err(e) => result matches Err(r) && r == e,
    }
}

impl Calculator {
    /// Splits `expr` into tokens, or reports that a number in it does not
    /// fit in 32 bits.
    pub fn parse_checked(expr: &str) -> (r: Option<Result<Vec<Token>, Error>>)
        ensures
            r is Some <==> numbers_fit(expr@),
            r matches Some(result) ==> parsed(expr@, result),
            r matches Some(Ok(v)) ==> balanced(views(v@)) && proper(views(v@)),
    {
        proof {
            lemma_tokens_balanced(expr@);
        }
        let mut tokens: Vec<Token> = Vec::new();
        let mut parens: Vec<char> = Vec::new();
        assert(expr@.take(0) =~= Seq::<char>::empty());
        assert(views(tokens@) =~= Seq::<TokenView>::empty());
        for c in it: expr.chars()
            invariant
                it.seq() == expr@,
                scan(expr@.take(it.index())) == Ok::<Scan, Error>(
                    Scan { tokens: views(tokens@), open: parens@.len() },
                ),
                forall|j: int| 0 <= j < parens@.len() ==> parens@[j] == '(',
                forall|k: int|
                    0 <= k <= it.index() ==> (#[trigger] scan(expr@.take(k)) matches Ok(st)
                        ==> within_u32(st.tokens)),
        {
            let ghost i = it.index();
            let ghost before = tokens@;
            proof {
                lemma_scan_step(expr@, i);
            }
            if '0' <= c && c <= '9' {
                let d: u32 = c as u32 - 48;
                let n: usize = tokens.len();
                let last: Option<u32> = if n > 0 {
                    match tokens[n - 1] {
                        Token::Number(v) => Some(v),
                        _ => None,
                    }
                } else {
                    None
                };
                match last {
                    Some(v) => {
                        let wide: u64 = v as u64 * 10 + d as u64;
                        if wide > u32::MAX as u64 {
                            proof {
                                let st = scan(expr@.take(i + 1))->Ok_0;
                                assert(st.tokens.last() == TokenView::Number(wide as nat));
                                assert(!within_u32(st.tokens));
                            }
                            return None;
                        }
                        tokens.set(n - 1, Token::Number(wide as u32));
                        assert(views(tokens@) =~= push_digit(views(before), digit_value(c)));
                    },
                    None => {
                        tokens.push(Token::Number(d));
                        assert(views(tokens@) =~= push_digit(views(before), digit_value(c)));
                    },
                }
            } else if c == '(' {
                tokens.push(Token::Bracket('('));
                parens.push(c);
                assert(views(tokens@) =~= views(before).push(TokenView::Bracket('(')));
            } else if c == ')' {
                tokens.push(Token::Bracket(')'));
                match parens.pop() {
                    Some(p) => {
                        if p != '(' {
                            return Some(Err(Error::ParensMismatch));
                        }
                    },
                    None => {
                        proof {
                            lemma_fails_at(expr@, i, Error::ParensMismatch);
                        }
                        return Some(Err(Error::ParensMismatch));
                    },
                }
                assert(views(tokens@) =~= views(before).push(TokenView::Bracket(')')));
            } else if c == '+' {
                tokens.push(Token::Operator(Operators::Adition));
                assert(views(tokens@) =~= views(before).push(
                    TokenView::Operator(Operators::Adition),
                ));
            } else if c == '-' {
                tokens.push(Token::Operator(Operators::Substruction));
                assert(views(tokens@) =~= views(before).push(
                    TokenView::Operator(Operators::Substruction),
                ));
            } else if c == '*' {
                tokens.push(Token::Operator(Operators::Multiplication));
                assert(views(tokens@) =~= views(before).push(
                    TokenView::Operator(Operators::Multiplication),
                ));
            } else if c == '/' {
                tokens.push(Token::Operator(Operators::Division));
                assert(views(tokens@) =~= views(before).push(
                    TokenView::Operator(Operators::Division),
                ));
            } else if c == ' ' || c == '\n' {
            } else {
                proof {
                    lemma_fails_at(expr@, i, Error::BadToken(c));
                }
                return Some(Err(Error::BadToken(c)));
            }
            proof {
                lemma_views_within(tokens@);
            }
        }
        assert(expr@.take(expr@.len() as int) =~= expr@);
        if parens.len() > 0 {
            return Some(Err(Error::ParensMismatch));
        }
        Some(Ok(tokens))
    }

    /// Splits `expr` into tokens. Digits extend the number before them,
    /// brackets must pair up, spaces and newlines are skipped, and any
    /// other character is an error.
    pub fn parse(expr: &str) -> (r: Result<Vec<Token>, Error>)
        requires
            numbers_fit(expr@),
        ensures
            parsed(expr@, r),
            r matches Ok(v) ==> balanced(views(v@)) && proper(views(v@)),
    {
        match Self::parse_checked(expr) {
            Some(result) => result,
            None => unreached(),
        }
    }
}

/// The scanner moves over `text` one character at a time.
pub proof fn lemma_scan_step(text: Seq<char>, k: int)
    requires
        0 <= k < text.len(),
    ensures
        scan(text.take(k + 1)) == match scan(text.take(k)) {
            Ok(st) => scan_char(st, text[k]),
            Err(e) => Err(e),
        },
{
    assert(text.take(k + 1).drop_last() =~= text.take(k));
}

/// Once the scanner has failed, it has failed for every longer prefix,
/// with the same error.
pub proof fn lemma_scan_error_stays(text: Seq<char>, j: int, k: int)
    requires
        0 <= j <= k <= text.len(),
        scan(text.take(j)) is Err,
    ensures
        scan(text.take(k)) == scan(text.take(j)),
    decreases k - j,
{
    if j < k {
        lemma_scan_error_stays(text, j, k - 1);
        lemma_scan_step(text, k - 1);
    }
}

/// The brackets among the scanner's tokens nest, and as many of them are
/// open as the scanner counts.
pub proof fn lemma_scan_depth(text: Seq<char>)
    ensures
        scan(text) matches Ok(st) ==> bracket_depth(st.tokens) == Some(st.open),
    decreases text.len(),
{
    if text.len() > 0 {
        lemma_scan_depth(text.drop_last());
        if let Ok(st) = scan(text.drop_last()) {
            let c = text.last();
            if is_digit(c) {
                let number = TokenView::Number(digit_value(c));
                if st.tokens.len() > 0 && st.tokens.last() is Number {
                    let front = st.tokens.drop_last();
                    let grown = TokenView::Number(st.tokens.last()->Number_0 * 10 + digit_value(c));
                    assert(front.push(st.tokens.last()) =~= st.tokens);
                    lemma_depth_push(front, st.tokens.last());
                    lemma_depth_push(front, grown);
                } else {
                    lemma_depth_push(st.tokens, number);
                }
            } else if c == '(' || c == ')' {
                lemma_depth_push(st.tokens, TokenView::Bracket(c));
            } else if c == '+' {
                lemma_depth_push(st.tokens, TokenView::Operator(Operators::Adition));
            } else if c == '-' {
                lemma_depth_push(st.tokens, TokenView::Operator(Operators::Substruction));
            } else if c == '*' {
                lemma_depth_push(st.tokens, TokenView::Operator(Operators::Multiplication));
            } else if c == '/' {
                lemma_depth_push(st.tokens, TokenView::Operator(Operators::Division));
            }
        }
    }
}

/// The scanner makes bracket tokens of the two bracket characters only.
pub proof fn lemma_scan_proper(text: Seq<char>)
    ensures
        scan(text) matches Ok(st) ==> proper(st.tokens),
    decreases text.len(),
{
    if text.len() > 0 {
        lemma_scan_proper(text.drop_last());
        if let Ok(before) = scan(text.drop_last()) {
            if let Ok(st) = scan(text) {
                assert forall|i: int|
                    0 <= i < st.tokens.len() && #[trigger] st.tokens[i] is Bracket implies st.tokens[i].is_open()
                    || st.tokens[i].is_close() by {
                    if i < before.tokens.len() && st.tokens[i] == before.tokens[i] {
                    }
                }
            }
        }
    }
}

/// The tokens of a text that tokenises have balanced brackets, each of
/// them an open or a closing one.
pub proof fn lemma_tokens_balanced(text: Seq<char>)
    ensures
        tokenize(text) matches Ok(tokens) ==> balanced(tokens) && proper(tokens),
{
    lemma_scan_depth(text);
    lemma_scan_proper(text);
}

/// Tokens that a vector holds have numbers of 32 bits.
proof fn lemma_views_within(tokens: Seq<Token>)
    ensures
        within_u32(views(tokens)),
{
}

/// Where the scanner fails after `i` characters that it took without
/// leaving 32 bits, the text as a whole fails with that error.
proof fn lemma_fails_at(text: Seq<char>, i: int, e: Error)
    requires
        0 <= i < text.len(),
        forall|k: int|
            0 <= k <= i ==> (#[trigger] scan(text.take(k)) matches Ok(st) ==> within_u32(
                st.tokens,
            )),
        scan(text.take(i + 1)) == Err::<Scan, Error>(e),
    ensures
        numbers_fit(text),
        tokenize(text) == Err::<Seq<TokenView>, Error>(e),
{
    assert forall|k: int| 0 <= k <= text.len() implies (#[trigger] scan(text.take(k)) matches Ok(
        st,
    ) ==> within_u32(st.tokens)) by {
        if k > i {
            lemma_scan_error_stays(text, i + 1, k);
        }
    }
    lemma_scan_error_stays(text, i + 1, text.len() as int);
    assert(text.take(text.len() as int) =~= text);
}

} // verus!
