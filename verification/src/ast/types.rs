use vstd::prelude::*;

verus! {

/// A byte offset into the source text.
pub type Pos = usize;

/// The built-in scalar types.
#[derive(Debug, Clone, Copy, PartialEq, Eq, Structural)]
pub enum BuiltIn {
    Int,
    Float,
}

/// The shapes a written type can take.
#[derive(Debug)]
pub enum TypeSpecifierInner {
    BuiltIn(BuiltIn),
    Composite(String),
    Reference(Box<TypeSpecifier>),
    Array(Box<TypeSpecifier>, usize),
}

/// A type as written in the source, with its position.
#[derive(Debug)]
pub struct TypeSpecifier {
    pub pos: Pos,
    pub inner: TypeSpecifierInner,
}

} // verus!
