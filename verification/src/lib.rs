pub mod ast;
pub mod codegen;
pub mod common;
pub mod ir;
pub mod opt;
pub mod parser;
