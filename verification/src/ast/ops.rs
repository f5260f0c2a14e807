use vstd::prelude::*;

verus! {

/// Unary arithmetic operators.
#[derive(Debug, Clone, PartialEq, Eq, Structural)]
pub enum ArithUOp {
    Neg,
}

/// Binary arithmetic operators.
#[derive(Debug, Clone, PartialEq, Eq, Structural)]
pub enum ArithBiOp {
    Add,
    Sub,
    Mul,
    Div,
}

/// Unary boolean operators.
#[derive(Debug, Clone, PartialEq, Eq, Structural)]
pub enum BoolUOp {
    Not,
}

/// Binary boolean operators.
#[derive(Debug, Clone, PartialEq, Eq, Structural)]
pub enum BoolBiOp {
    And,
    Or,
}

/// Comparison operators.
#[derive(Debug, Clone, PartialEq, Eq, Structural)]
pub enum ComOp {
    Lt,
    Le,
    Gt,
    Ge,
    Eq,
    Ne,
}

} // verus!
