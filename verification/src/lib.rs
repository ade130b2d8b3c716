//! A small arithmetic-expression engine: text is split into tokens, the
//! tokens are reordered into postfix form by operator precedence, and the
//! postfix sequence is reduced on a value stack.
//!
//! The three steps are [`Calculator::parse`], [`Calculator::expression`]
//! and [`Calculator::evaluate`]. Each is verified against a mathematical
//! model of what it computes:
//!
//! - [`token`]: the tokens, their view with unbounded numbers, operator
//!   rank and bracket depth.
//! - [`lexer`]: the scanner's model (`tokenize`) and the tokenizer.
//! - [`numbers`]: what digit strings denote, and when the scanner stays
//!   within 32 bits.
//! - [`postfix`]: the converter's model (`to_postfix`) and the converter.
//! - [`infix`]: well-formed infix sequences, and written expressions with
//!   their tokens and their meaning.
//! - [`tree`]: expressions as trees.
//! - [`validity`], [`content`], [`precedence`]: what holds of the
//!   converter's output: no brackets, one value, nothing lost, and the
//!   operands that precedence, grouping from the left and brackets assign.
//! - [`reduce`]: the value stack's model (`reduce`) and the evaluator,
//!   which works in whatever arithmetic the caller supplies.

use vstd::prelude::*;

pub mod content;
pub mod infix;
pub mod lexer;
pub mod numbers;
pub mod postfix;
pub mod precedence;
pub mod reduce;
pub mod token;
pub mod tree;
pub mod validity;

pub use token::{Error, Operators, Token, TokenView};

verus! {

/// Namespace of the engine's operations; it holds no state.
pub struct Calculator {}

} // verus!
