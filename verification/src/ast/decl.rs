use vstd::prelude::*;
use crate::ast::expr::{RightVal, RightValList};
use crate::ast::stmt::CodeBlockStmt;
use crate::ast::types::{Pos, TypeSpecifier};

verus! {

/// A declared name with its optional type (`n: i32`, `arr: [i32; 3]`,
/// `input: &[i32]`, `que[10]`, `count`).
#[derive(Debug)]
pub struct VarDecl {
    pub pos: Pos,
    pub identifier: String,
    pub type_specifier: Option<TypeSpecifier>,
}

/// What a variable definition is initialised with.
#[derive(Debug)]
pub enum VarDefInit {
    Scalar(Box<RightVal>),
    Array(RightValList),
}

/// A declared name with its optional type and its initial value.
#[derive(Debug)]
pub struct VarDef {
    pub pos: Pos,
    pub identifier: String,
    pub type_specifier: Option<TypeSpecifier>,
    pub init: VarDefInit,
}

#[derive(Debug)]
pub enum VarDeclStmtInner {
    Decl(Box<VarDecl>),
    Def(Box<VarDef>),
}

/// A `let` statement.
#[derive(Debug)]
pub struct VarDeclStmt {
    pub pos: Pos,
    pub inner: VarDeclStmtInner,
}

/// A `struct` definition.
#[derive(Debug)]
pub struct StructDef {
    pub pos: Pos,
    pub identifier: String,
    pub decls: Vec<VarDecl>,
}

/// The parameter list of a function.
#[derive(Debug)]
pub struct ParamDecl {
    pub decls: Vec<VarDecl>,
}

/// A function signature.
#[derive(Debug)]
pub struct FnDecl {
    pub pos: Pos,
    pub identifier: String,
    pub param_decl: Option<ParamDecl>,
    pub return_dtype: Option<TypeSpecifier>,
}

/// A function declaration without a body.
#[derive(Debug)]
pub struct FnDeclStmt {
    pub pos: Pos,
    pub fn_decl: FnDecl,
}

/// A function definition.
#[derive(Debug)]
pub struct FnDef {
    pub pos: Pos,
    pub fn_decl: FnDecl,
    pub stmts: Vec<CodeBlockStmt>,
}

} // verus!
