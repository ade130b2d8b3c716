//! Expressions as trees: what a token sequence means once precedence and
//! brackets have been resolved.

use crate::token::{Operators, TokenView};
use vstd::prelude::*;

verus! {

/// An arithmetic expression: a number, or an operator applied to a left
/// and a right operand.
pub enum Tree {
    Leaf(nat),
    Node(Operators, Box<Tree>, Box<Tree>),
}

impl Tree {
    /// The value of the tree in the arithmetic where `number` gives the
    /// value of a number and `apply` that of an operator on the values of
    /// its left and right operands.
    pub open spec fn fold<V>(
        self,
        number: spec_fn(nat) -> V,
        apply: spec_fn(Operators, V, V) -> V,
    ) -> V
        decreases self,
    {
        match self {
            Tree::Leaf(n) => number(n),
            Tree::Node(op, left, right) => apply(
                op,
                left.fold(number, apply),
                right.fold(number, apply),
            ),
        }
    }

    /// The tree in postfix order: the left operand, the right operand, then
    /// the operator.
    pub open spec fn postorder(self) -> Seq<TokenView>
        decreases self,
    {
        match self {
            Tree::Leaf(n) => seq![TokenView::Number(n)],
            Tree::Node(op, left, right) => left.postorder() + right.postorder()
                + seq![TokenView::Operator(op)],
        }
    }
}

} // verus!
