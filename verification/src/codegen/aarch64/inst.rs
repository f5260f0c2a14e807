use vstd::prelude::*;
use super::types::{Addr, BinOp, Cond, IndexOperand, Operand, RegSize, Register};
use crate::common::graph::{CfgNode, LabelMap};

verus! {

/// An AArch64 instruction, over virtual or physical registers.
#[derive(Debug, Clone)]
pub enum Inst {
    Label(String),
    Mov { size: RegSize, dst: Register, src: Operand },
    BinOp { op: BinOp, size: RegSize, dst: Register, lhs: Register, rhs: Operand },
    Cmp { size: RegSize, lhs: Register, rhs: Operand },
    Ldr { size: RegSize, dst: Register, addr: Addr },
    Str { size: RegSize, src: Register, addr: Addr },
    Lea { dst: Register, addr: Addr },
    Gep { dst: Register, base: Register, index: IndexOperand, scale: i64 },
    B { label: String },
    BCond { cond: Cond, label: String },
    Bl { func: String },
    SaveCallerRegs,
    RestoreCallerRegs,
    SubSp { imm: i64 },
    AddSp { imm: i64 },
    Ret,
}

/// The virtual register that a register names, as a list of zero or one.
pub open spec fn reg_vregs(r: Register) -> Seq<usize> {
    match r {
        Register::Virtual(v) => seq![v],
        _ => Seq::empty(),
    }
}

/// The virtual registers that an operand reads.
pub open spec fn operand_vregs(o: Operand) -> Seq<usize> {
    match o {
        Operand::Register(r) => reg_vregs(r),
        Operand::Immediate(_) => Seq::empty(),
    }
}

/// The virtual registers that an address reads.
pub open spec fn addr_vregs(a: Addr) -> Seq<usize> {
    match a {
        Addr::BaseOff { base, .. } => reg_vregs(base),
        Addr::Global(_) => Seq::empty(),
    }
}

/// The virtual registers that an index reads.
pub open spec fn index_vregs(i: IndexOperand) -> Seq<usize> {
    match i {
        IndexOperand::Reg(r) => reg_vregs(r),
        IndexOperand::Imm(_) => Seq::empty(),
    }
}

fn push_reg(out: &mut Vec<usize>, r: Register)
    ensures
        final(out)@ == old(out)@ + reg_vregs(r),
{
    if let Register::Virtual(v) = r {
        out.push(v);
    }
    assert(final(out)@ =~= old(out)@ + reg_vregs(r));
}

fn push_operand(out: &mut Vec<usize>, o: Operand)
    ensures
        final(out)@ == old(out)@ + operand_vregs(o),
{
    match o {
        Operand::Register(r) => push_reg(out, r),
        Operand::Immediate(_) => {
            assert(final(out)@ =~= old(out)@ + operand_vregs(o));
        },
    }
}

fn push_addr(out: &mut Vec<usize>, a: &Addr)
    ensures
        final(out)@ == old(out)@ + addr_vregs(*a),
{
    match a {
        Addr::BaseOff { base, .. } => push_reg(out, *base),
        Addr::Global(_) => {
            assert(final(out)@ =~= old(out)@ + addr_vregs(*a));
        },
    }
}

impl Inst {
    /// The virtual registers that the instruction reads.
    pub open spec fn spec_used(&self) -> Seq<usize> {
        match *self {
            Inst::Mov { src, .. } => operand_vregs(src),
            Inst::BinOp { lhs, rhs, .. } => reg_vregs(lhs) + operand_vregs(rhs),
            Inst::Cmp { lhs, rhs, .. } => reg_vregs(lhs) + operand_vregs(rhs),
            Inst::Ldr { addr, .. } => addr_vregs(addr),
            Inst::Str { src, addr, .. } => reg_vregs(src) + addr_vregs(addr),
            Inst::Lea { addr, .. } => addr_vregs(addr),
            Inst::Gep { base, index, .. } => reg_vregs(base) + index_vregs(index),
            _ => Seq::empty(),
        }
    }

    /// The virtual registers that the instruction writes.
    pub open spec fn spec_defined(&self) -> Seq<usize> {
        match *self {
            Inst::Mov { dst, .. } => reg_vregs(dst),
            Inst::BinOp { dst, .. } => reg_vregs(dst),
            Inst::Ldr { dst, .. } => reg_vregs(dst),
            Inst::Lea { dst, .. } => reg_vregs(dst),
            Inst::Gep { dst, .. } => reg_vregs(dst),
            _ => Seq::empty(),
        }
    }

    /// The virtual registers that the instruction reads.
    pub fn used_vregs(&self) -> (r: Vec<usize>)
        ensures
            r@ == self.spec_used(),
    {
        let mut out: Vec<usize> = Vec::new();
        match self {
            Inst::Mov { src, .. } => push_operand(&mut out, *src),
            Inst::BinOp { lhs, rhs, .. } => {
                push_reg(&mut out, *lhs);
                push_operand(&mut out, *rhs);
            },
            Inst::Cmp { lhs, rhs, .. } => {
                push_reg(&mut out, *lhs);
                push_operand(&mut out, *rhs);
            },
            Inst::Ldr { addr, .. } => push_addr(&mut out, addr),
            Inst::Str { src, addr, .. } => {
                push_reg(&mut out, *src);
                push_addr(&mut out, addr);
            },
            Inst::Lea { addr, .. } => push_addr(&mut out, addr),
            Inst::Gep { base, index, .. } => {
                push_reg(&mut out, *base);
                if let IndexOperand::Reg(r) = index {
                    push_reg(&mut out, *r);
                }
            },
            _ => {},
        }
        assert(out@ =~= self.spec_used());
        out
    }

    /// The virtual registers that the instruction writes.
    pub fn defined_vregs(&self) -> (r: Vec<usize>)
        ensures
            r@ == self.spec_defined(),
    {
        let mut out: Vec<usize> = Vec::new();
        match self {
            Inst::Mov { dst, .. } => push_reg(&mut out, *dst),
            Inst::BinOp { dst, .. } => push_reg(&mut out, *dst),
            Inst::Ldr { dst, .. } => push_reg(&mut out, *dst),
            Inst::Lea { dst, .. } => push_reg(&mut out, *dst),
            Inst::Gep { dst, .. } => push_reg(&mut out, *dst),
            _ => {},
        }
        assert(out@ =~= self.spec_defined());
        out
    }
}

impl CfgNode for Inst {
    open spec fn label_view(&self) -> Option<Seq<char>> {
        match self {
            Inst::Label(name) => Some(name@),
            _ => None,
        }
    }

    open spec fn targets_known(&self, map: Map<Seq<char>, usize>) -> bool {
        match self {
            Inst::B { label } => map.contains_key(label@),
            Inst::BCond { label, .. } => map.contains_key(label@),
            _ => true,
        }
    }

    open spec fn successor_view(&self, idx: int, num_nodes: int, map: Map<Seq<char>, usize>) -> Seq<
        usize,
    > {
        let next: Seq<usize> = if idx + 1 < num_nodes {
            seq![(idx + 1) as usize]
        } else {
            Seq::empty()
        };
        match self {
            Inst::B { label } => seq![map[label@]],
            Inst::BCond { label, .. } => seq![map[label@]] + next,
            Inst::Ret => Seq::empty(),
            _ => next,
        }
    }

    fn label(&self) -> (r: Option<String>) {
        match self {
            Inst::Label(name) => Some(name.clone()),
            _ => None,
        }
    }

    fn successors(&self, idx: usize, num_nodes: usize, label_map: &LabelMap) -> (r: Vec<usize>) {
        let mut next: Vec<usize> = Vec::new();
        if idx + 1 < num_nodes {
            next.push(idx + 1);
        }
        let r = match self {
            Inst::B { label } => {
                let t = label_map.get(label).unwrap();
                let mut v: Vec<usize> = Vec::new();
                v.push(t);
                v
            },
            Inst::BCond { label, .. } => {
                let t = label_map.get(label).unwrap();
                let mut v: Vec<usize> = Vec::new();
                v.push(t);
                if idx + 1 < num_nodes {
                    v.push(idx + 1);
                }
                v
            },
            Inst::Ret => Vec::new(),
            _ => next,
        };
        assert(r@ =~= self.successor_view(idx as int, num_nodes as int, label_map.view_map()));
        r
    }
}

} // verus!
