//! The tokens of a postfix expression.

use vstd::prelude::*;

verus! {

/// A binary arithmetic operator.
#[derive(Clone, Copy, Debug, PartialEq, Eq, Structural)]
pub enum Operator {
    Add,
    Sub,
    Mul,
    Div,
}

/// The smallest unit of an expression: an operator symbol or an integer literal.
#[derive(Clone, Copy, Debug, PartialEq, Eq, Structural)]
pub enum Token {
    Operator(Operator),
    Number(i32),
}

} // verus!
