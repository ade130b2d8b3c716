//! The shape of a well-formed infix expression.

use crate::token::{bracket_depth, Operators, TokenView};
use crate::tree::Tree;
use vstd::prelude::*;

verus! {

/// Where a reader stands inside an infix expression: how many brackets are
/// open, and whether an operand has just ended (so that an operator or a
/// closing bracket may follow) or one is due.
pub struct Infix {
    pub open: nat,
    pub complete: bool,
}

/// The reader's position after the token `t`, or `None` where `t` may not
/// stand there: a number or an open bracket starts an operand, an operator
/// or a closing bracket follows one.
pub open spec fn infix_token(at: Option<Infix>, t: TokenView) -> Option<Infix> {
    match at {
        Some(st) => match t {
            TokenView::Number(_) => if st.complete {
                None
            } else {
                Some(Infix { open: st.open, complete: true })
            },
            TokenView::Operator(_) => if st.complete {
                Some(Infix { open: st.open, complete: false })
            } else {
                None
            },
            TokenView::Bracket(c) => if c == '(' && !st.complete {
                Some(Infix { open: st.open + 1, complete: false })
            } else if c == ')' && st.complete && st.open > 0 {
                Some(Infix { open: (st.open - 1) as nat, complete: true })
            } else {
                None
            },
        },
        None => None,
    }
}

/// The reader's position after `tokens`, starting from `at`.
pub open spec fn infix_from(at: Option<Infix>, tokens: Seq<TokenView>) -> Option<Infix>
    decreases tokens.len(),
{
    if tokens.len() == 0 {
        at
    } else {
        infix_token(infix_from(at, tokens.drop_last()), tokens.last())
    }
}

/// The reader's position after `tokens`, or `None` where they cannot begin
/// an infix expression.
pub open spec fn infix(tokens: Seq<TokenView>) -> Option<Infix> {
    infix_from(Some(Infix { open: 0, complete: false }), tokens)
}

/// `tokens` is an infix expression: operands (numbers, or expressions in
/// brackets) alternate with operators, it begins and ends with an operand,
/// and every bracket is closed.
pub open spec fn well_formed(tokens: Seq<TokenView>) -> bool {
    infix(tokens) == Some(Infix { open: 0, complete: true })
}

/// An infix expression as it is written: a number, an expression in
/// brackets, or two expressions with an operator between them.
pub enum Syntax {
    Number(nat),
    Group(Box<Syntax>),
    Binary(Operators, Box<Syntax>, Box<Syntax>),
}

impl Syntax {
    /// The tokens of the written expression, from left to right.
    pub open spec fn tokens(self) -> Seq<TokenView>
        decreases self,
    {
        match self {
            Syntax::Number(n) => seq![TokenView::Number(n)],
            Syntax::Group(inner) => seq![TokenView::Bracket('(')] + inner.tokens()
                + seq![TokenView::Bracket(')')],
            Syntax::Binary(op, left, right) => left.tokens() + seq![TokenView::Operator(op)]
                + right.tokens(),
        }
    }

    /// The expression that is meant: brackets group and leave no trace.
    pub open spec fn tree(self) -> Tree
        decreases self,
    {
        match self {
            Syntax::Number(n) => Tree::Leaf(n),
            Syntax::Group(inner) => inner.tree(),
            Syntax::Binary(op, left, right) => Tree::Node(
                op,
                Box::new(left.tree()),
                Box::new(right.tree()),
            ),
        }
    }

    /// How tightly the expression holds together: as its operator binds, and
    /// tighter than any operator where it is a number or stands in brackets.
    pub open spec fn strength(self) -> nat {
        match self {
            Syntax::Binary(op, _, _) => op.spec_rank(),
            _ => 3,
        }
    }

    /// Whether the operands of every operator are what a reader takes them
    /// to be: an operand binds at least as tightly as its operator on the
    /// left, and tighter on the right, so that operators of one rank group
    /// from the left.
    pub open spec fn follows_precedence(self) -> bool
        decreases self,
    {
        match self {
            Syntax::Number(_) => true,
            Syntax::Group(inner) => inner.follows_precedence(),
            Syntax::Binary(op, left, right) => {
                &&& left.follows_precedence()
                &&& right.follows_precedence()
                &&& left.strength() >= op.spec_rank()
                &&& right.strength() > op.spec_rank()
            },
        }
    }
}

/// The tokens of a written expression are well-formed.
pub proof fn lemma_syntax_well_formed(e: Syntax)
    ensures
        well_formed(e.tokens()),
{
    lemma_syntax_is_operand(e, 0);
}

/// The reader counts the open brackets as the bracket depth does.
pub proof fn lemma_infix_depth(tokens: Seq<TokenView>)
    ensures
        infix(tokens) matches Some(st) ==> bracket_depth(tokens) == Some(st.open),
    decreases tokens.len(),
{
    if tokens.len() > 0 {
        lemma_infix_depth(tokens.drop_last());
    }
}

/// Reading one sequence after another.
pub proof fn lemma_infix_concat(at: Option<Infix>, a: Seq<TokenView>, b: Seq<TokenView>)
    ensures
        infix_from(at, a + b) == infix_from(infix_from(at, a), b),
    decreases b.len(),
{
    if b.len() == 0 {
        assert(a + b =~= a);
    } else {
        lemma_infix_concat(at, a, b.drop_last());
        assert((a + b).drop_last() =~= a + b.drop_last());
    }
}

/// Reading a single token.
pub proof fn lemma_infix_single(at: Option<Infix>, t: TokenView)
    ensures
        infix_from(at, seq![t]) == infix_token(at, t),
{
    assert(seq![t].drop_last() =~= Seq::<TokenView>::empty());
    assert(infix_from(at, Seq::<TokenView>::empty()) == at);
}

/// Where an operand is due, the tokens of a written expression are one.
pub proof fn lemma_syntax_is_operand(e: Syntax, open: nat)
    ensures
        infix_from(Some(Infix { open, complete: false }), e.tokens()) == Some(
            Infix { open, complete: true },
        ),
    decreases e,
{
    let at = Some(Infix { open, complete: false });
    match e {
        Syntax::Number(n) => {
            lemma_infix_single(at, TokenView::Number(n));
        },
        Syntax::Group(inner) => {
            let left = seq![TokenView::Bracket('(')];
            let right = seq![TokenView::Bracket(')')];
            lemma_infix_concat(at, left + inner.tokens(), right);
            lemma_infix_concat(at, left, inner.tokens());
            lemma_infix_single(at, TokenView::Bracket('('));
            lemma_syntax_is_operand(*inner, open + 1);
            lemma_infix_single(
                Some(Infix { open: open + 1, complete: true }),
                TokenView::Bracket(')'),
            );
        },
        Syntax::Binary(op, left, right) => {
            let middle = seq![TokenView::Operator(op)];
            lemma_infix_concat(at, left.tokens() + middle, right.tokens());
            lemma_infix_concat(at, left.tokens(), middle);
            lemma_syntax_is_operand(*left, open);
            lemma_infix_single(Some(Infix { open, complete: true }), TokenView::Operator(op));
            lemma_syntax_is_operand(*right, open);
        },
    }
}

} // verus!
