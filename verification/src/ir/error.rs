use vstd::prelude::*;

verus! {

/// Errors of IR construction.
#[derive(Debug)]
pub enum Error {
    /// A variable of struct type was given an initial value.
    StructInitialization,
    /// A name that no local or global variable in scope has.
    VariableNotDefined { symbol: String },
}

} // verus!
