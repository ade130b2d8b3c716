//! The lexical units of an expression and their mathematical model.

use vstd::prelude::*;

verus! {

/// The four binary operators.
#[derive(Debug, Clone, Copy, PartialEq, Eq, Structural)]
pub enum Operators {
    Adition,
    Substruction,
    Multiplication,
    Division,
}

/// One lexical unit: a number, an operator, or a bracket character.
#[derive(Debug, Clone, Copy, PartialEq, Eq, Structural)]
pub enum Token {
    Number(u32),
    Operator(Operators),
    Bracket(char),
}

/// Why a text could not be split into tokens.
#[derive(Debug, Clone, Copy, PartialEq, Eq, Structural)]
pub enum Error {
    /// A character that is no digit, operator, bracket, space or newline.
    BadToken(char),
    /// A closing bracket without an open one, or an open one never closed.
    ParensMismatch,
}

/// A token as the specifications see it: numbers are unbounded naturals.
pub enum TokenView {
    Number(nat),
    Operator(Operators),
    Bracket(char),
}

impl View for Token {
    type V = TokenView;

    open spec fn view(&self) -> TokenView {
        match *self {
            Token::Number(n) => TokenView::Number(n as nat),
            Token::Operator(op) => TokenView::Operator(op),
            Token::Bracket(c) => TokenView::Bracket(c),
        }
    }
}

/// The views of a sequence of tokens, item by item.
pub open spec fn views(tokens: Seq<Token>) -> Seq<TokenView> {
    tokens.map_values(|t: Token| t@)
}

impl TokenView {
    /// Whether this is the open bracket.
    pub open spec fn is_open(self) -> bool {
        self == TokenView::Bracket('(')
    }

    /// Whether this is the closing bracket.
    pub open spec fn is_close(self) -> bool {
        self == TokenView::Bracket(')')
    }
}

/// Every bracket among `tokens` holds one of the two bracket characters.
pub open spec fn proper(tokens: Seq<TokenView>) -> bool {
    forall|i: int|
        0 <= i < tokens.len() ==> (#[trigger] tokens[i] is Bracket ==> tokens[i].is_open()
            || tokens[i].is_close())
}

/// The bracket depth after the token `t`, given the depth before it: an
/// open bracket adds one, a closing bracket takes one away. `None` where a
/// closing bracket has no open one to match, and from then on.
pub open spec fn depth_token(depth: Option<nat>, t: TokenView) -> Option<nat> {
    match depth {
        Some(d) => if t.is_open() {
            Some(d + 1)
        } else if t.is_close() {
            if d > 0 {
                Some((d - 1) as nat)
            } else {
                None
            }
        } else {
            Some(d)
        },
        None => None,
    }
}

/// The number of brackets that `tokens` leaves open, or `None` where one of
/// its closing brackets matches no open one.
pub open spec fn bracket_depth(tokens: Seq<TokenView>) -> Option<nat>
    decreases tokens.len(),
{
    if tokens.len() == 0 {
        Some(0)
    } else {
        depth_token(bracket_depth(tokens.drop_last()), tokens.last())
    }
}

/// Every open bracket has its closing bracket, and the pairs nest.
pub open spec fn balanced(tokens: Seq<TokenView>) -> bool {
    bracket_depth(tokens) == Some(0nat)
}

/// The bracket depth after one more token.
pub proof fn lemma_depth_push(tokens: Seq<TokenView>, t: TokenView)
    ensures
        bracket_depth(tokens.push(t)) == depth_token(bracket_depth(tokens), t),
{
    assert(tokens.push(t).drop_last() =~= tokens);
}

impl Operators {
    /// Binding strength: multiplication and division bind tighter than
    /// addition and subtraction; within each pair the two are equal.
    pub open spec fn spec_rank(self) -> nat {
        match self {
            Operators::Adition | Operators::Substruction => 1,
            Operators::Multiplication | Operators::Division => 2,
        }
    }

    /// The binding strength of this operator.
    pub fn rank(self) -> (r: u8)
        ensures
            r == self.spec_rank(),
    {
        match self {
            Operators::Adition | Operators::Substruction => 1,
            Operators::Multiplication | Operators::Division => 2,
        }
    }
}

} // verus!
