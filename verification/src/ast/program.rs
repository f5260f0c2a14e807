use vstd::prelude::*;
use crate::ast::decl::{FnDeclStmt, FnDef, StructDef, VarDeclStmt};

verus! {

/// `use module;`
#[derive(Debug, Clone)]
pub struct UseStmt {
    pub module_name: String,
}

#[derive(Debug)]
pub enum ProgramElementInner {
    VarDeclStmt(Box<VarDeclStmt>),
    StructDef(Box<StructDef>),
    FnDeclStmt(Box<FnDeclStmt>),
    FnDef(Box<FnDef>),
}

/// A top-level item of a program.
#[derive(Debug)]
pub struct ProgramElement {
    pub inner: ProgramElementInner,
}

/// The top-level items of a program.
pub type ProgramElementList = Vec<ProgramElement>;

/// A whole program: its imports, then its items.
#[derive(Debug)]
pub struct Program {
    pub use_stmts: Vec<UseStmt>,
    pub elements: ProgramElementList,
}

} // verus!
