pub mod conversions;
pub mod error;
pub mod function;
pub mod module;
pub mod printer;
pub mod stmt;
pub mod types;
pub mod value;
