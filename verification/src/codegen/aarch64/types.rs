use vstd::prelude::*;
use crate::codegen::error::Error;
use crate::ir;

verus! {

/// A machine register: virtual (before allocation), physical `x0..x30`, or the stack pointer.
#[derive(Debug, Clone, Copy, PartialEq, Eq, Structural, Hash)]
pub enum Register {
    Virtual(usize),
    Physical(u8),
    StackPointer,
}

/// The width of a register access.
#[derive(Debug, Clone, Copy, PartialEq, Eq, Structural)]
pub enum RegSize {
    W32,
    X64,
}

/// An arithmetic operation.
#[derive(Debug, Clone, Copy, PartialEq, Eq, Structural)]
pub enum BinOp {
    Add,
    Sub,
    Mul,
    SDiv,
}

/// A branch condition.
#[derive(Debug, Clone, Copy, PartialEq, Eq, Structural)]
pub enum Cond {
    Eq,
    Ne,
    Lt,
    Le,
    Gt,
    Ge,
}

/// A source operand: a register or an immediate.
#[derive(Debug, Clone, Copy, PartialEq, Eq, Structural)]
pub enum Operand {
    Register(Register),
    Immediate(i64),
}

/// A memory address: base register plus offset, or a global symbol.
#[derive(Debug, Clone)]
pub enum Addr {
    BaseOff { base: Register, offset: i64 },
    Global(String),
}

/// The index of an address computation: a register or an immediate.
#[derive(Debug, Clone, Copy, PartialEq, Eq, Structural)]
pub enum IndexOperand {
    Reg(Register),
    Imm(i64),
}

/// The register width that holds a value of type `dtype`, if it fits in one.
pub open spec fn spec_regsize(dtype: ir::types::Dtype) -> Option<RegSize> {
    match dtype {
        ir::types::Dtype::I1 | ir::types::Dtype::I32 => Some(RegSize::W32),
        ir::types::Dtype::Pointer { .. } => Some(RegSize::X64),
        _ => None,
    }
}

/// Register widths by type: a value fits a 64-bit register exactly when it is
/// a pointer, whatever it points to, and a 32-bit register exactly when it
/// is an `i1` or an `i32`; no other type fits a register.
pub proof fn lemma_register_widths(dtype: ir::types::Dtype)
    ensures
        spec_regsize(dtype) == Some(RegSize::X64) <==> dtype is Pointer,
        spec_regsize(dtype) == Some(RegSize::W32) <==> (dtype is I1 || dtype is I32),
        spec_regsize(dtype) is None <==> !(dtype is Pointer || dtype is I1 || dtype is I32),
{
}

/// The register width of `dtype`: 32 bits for `i1` and `i32`, 64 bits for
/// pointers; any other type is refused.
pub fn dtype_to_regsize(dtype: &ir::types::Dtype) -> (r: Result<RegSize, Error>)
    ensures
        match spec_regsize(*dtype) {
            Some(s) => r == Ok::<RegSize, Error>(s),
            None => r matches Err(Error::UnsupportedDtype { dtype: d }) && d == *dtype,
        },
{
    match dtype {
        ir::types::Dtype::I1 | ir::types::Dtype::I32 => Ok(RegSize::W32),
        ir::types::Dtype::Pointer { .. } => Ok(RegSize::X64),
        _ => Err(Error::UnsupportedDtype { dtype: dtype.clone() }),
    }
}

} // verus!
