use vstd::prelude::*;
use crate::ast::decl::VarDeclStmt;
use crate::ast::expr::{BoolExpr, FnCall, LeftVal, RightVal};
use crate::ast::types::Pos;

verus! {

/// `left = right;`
#[derive(Debug)]
pub struct AssignmentStmt {
    pub left_val: LeftVal,
    pub right_val: RightVal,
}

/// A call whose result is dropped.
#[derive(Debug)]
pub struct CallStmt {
    pub fn_call: FnCall,
}

/// `return value;`
#[derive(Debug)]
pub struct ReturnStmt {
    pub val: Option<RightVal>,
}

/// `if cond { .. } else { .. }`
#[derive(Debug)]
pub struct IfStmt {
    pub bool_expr: BoolExpr,
    pub if_stmts: Vec<CodeBlockStmt>,
    pub else_stmts: Vec<CodeBlockStmt>,
}

/// `while cond { .. }`
#[derive(Debug)]
pub struct WhileStmt {
    pub bool_expr: BoolExpr,
    pub stmts: Vec<CodeBlockStmt>,
}

#[derive(Debug)]
pub enum CodeBlockStmtInner {
    VarDecl(Box<VarDeclStmt>),
    Assignment(Box<AssignmentStmt>),
    Call(Box<CallStmt>),
    If(Box<IfStmt>),
    While(Box<WhileStmt>),
    Return(Box<ReturnStmt>),
    Continue,
    Break,
    Null,
}

/// A statement of a function body, with its position.
#[derive(Debug)]
pub struct CodeBlockStmt {
    pub pos: Pos,
    pub inner: CodeBlockStmtInner,
}

} // verus!
