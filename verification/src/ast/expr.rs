use vstd::prelude::*;
use crate::ast::ops::{ArithBiOp, ArithUOp, BoolBiOp, BoolUOp, ComOp};
use crate::ast::types::Pos;

verus! {

/// An assignable place.
#[derive(Debug)]
pub struct LeftVal {
    pub pos: Pos,
    pub inner: LeftValInner,
}

#[derive(Debug)]
pub enum LeftValInner {
    Id(String),
    ArrayExpr(Box<ArrayExpr>),
    MemberExpr(Box<MemberExpr>),
}

#[derive(Debug)]
pub enum IndexExprInner {
    Num(usize),
    Id(String),
}

/// An array index: a literal or a variable.
#[derive(Debug)]
pub struct IndexExpr {
    pub inner: IndexExprInner,
}

/// `arr[idx]`.
#[derive(Debug)]
pub struct ArrayExpr {
    pub arr: Box<LeftVal>,
    pub idx: Box<IndexExpr>,
}

/// `value.member`.
#[derive(Debug)]
pub struct MemberExpr {
    pub struct_id: Box<LeftVal>,
    pub member_id: String,
}

/// A unary arithmetic expression.
#[derive(Debug)]
pub struct ArithUExpr {
    pub op: ArithUOp,
    pub expr: Box<ExprUnit>,
}

/// A binary arithmetic expression.
#[derive(Debug)]
pub struct ArithBiOpExpr {
    pub op: ArithBiOp,
    pub left: Box<ArithExpr>,
    pub right: Box<ArithExpr>,
}

#[derive(Debug)]
pub enum ArithExprInner {
    ArithBiOpExpr(Box<ArithBiOpExpr>),
    ExprUnit(Box<ExprUnit>),
}

/// An arithmetic expression with its position.
#[derive(Debug)]
pub struct ArithExpr {
    pub pos: Pos,
    pub inner: ArithExprInner,
}

/// A comparison of two operands.
#[derive(Debug)]
pub struct ComExpr {
    pub op: ComOp,
    pub left: Box<ExprUnit>,
    pub right: Box<ExprUnit>,
}

/// A unary boolean expression.
#[derive(Debug)]
pub struct BoolUOpExpr {
    pub op: BoolUOp,
    pub cond: Box<BoolUnit>,
}

/// A binary boolean expression.
#[derive(Debug)]
pub struct BoolBiOpExpr {
    pub op: BoolBiOp,
    pub left: Box<BoolExpr>,
    pub right: Box<BoolExpr>,
}

#[derive(Debug)]
pub enum BoolExprInner {
    BoolBiOpExpr(Box<BoolBiOpExpr>),
    BoolUnit(Box<BoolUnit>),
}

/// A boolean expression with its position.
#[derive(Debug)]
pub struct BoolExpr {
    pub pos: Pos,
    pub inner: BoolExprInner,
}

#[derive(Debug)]
pub enum BoolUnitInner {
    ComExpr(Box<ComExpr>),
    BoolExpr(Box<BoolExpr>),
    BoolUOpExpr(Box<BoolUOpExpr>),
}

/// An atomic boolean expression with its position.
#[derive(Debug)]
pub struct BoolUnit {
    pub pos: Pos,
    pub inner: BoolUnitInner,
}

/// A call, possibly prefixed by a module name.
#[derive(Debug)]
pub struct FnCall {
    pub module_prefix: Option<String>,
    pub name: String,
    pub vals: RightValList,
}

#[derive(Debug)]
pub enum ExprUnitInner {
    Num(i32),
    Id(String),
    ArithExpr(Box<ArithExpr>),
    FnCall(Box<FnCall>),
    ArrayExpr(Box<ArrayExpr>),
    MemberExpr(Box<MemberExpr>),
    ArithUExpr(Box<ArithUExpr>),
}

/// An operand of an arithmetic expression, with its position.
#[derive(Debug)]
pub struct ExprUnit {
    pub pos: Pos,
    pub inner: ExprUnitInner,
}

#[derive(Debug)]
pub enum RightValInner {
    ArithExpr(Box<ArithExpr>),
    BoolExpr(Box<BoolExpr>),
}

/// A value: an arithmetic or a boolean expression.
#[derive(Debug)]
pub struct RightVal {
    pub inner: RightValInner,
}

/// A comma-separated list of values.
pub type RightValList = Vec<RightVal>;

} // verus!
