use vstd::prelude::*;
use crate::ir::types::Dtype;

verus! {

/// Errors of the assembly backend.
#[derive(Debug)]
pub enum Error {
    /// A value of this type has no machine representation here.
    UnsupportedDtype { dtype: Dtype },
    /// A broken invariant of the backend, with a message.
    Internal(String),
}

} // verus!
