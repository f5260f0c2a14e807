pub mod decl;
pub mod expr;
pub mod ops;
pub mod program;
pub mod stmt;
pub mod types;
