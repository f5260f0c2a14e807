use vstd::prelude::*;
use indexmap::IndexMap;
use crate::ir::function::Function;
use crate::ir::types::{FunctionType, StructType};
use crate::ir::value::GlobalVariable;

verus! {

/// The named types of a program: its struct types and function signatures.
pub struct Registry {
    pub struct_types: IndexMap<String, StructType>,
    pub function_types: IndexMap<String, FunctionType>,
}

/// The globals and functions of a program, in order of definition.
pub struct Module {
    pub global_list: IndexMap<String, GlobalVariable>,
    pub function_list: IndexMap<String, Function>,
}

} // verus!
