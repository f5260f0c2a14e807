pub mod inst;
pub mod register_allocator;
pub mod types;

use vstd::prelude::*;
use crate::codegen::aarch64::inst::Inst;
use crate::codegen::aarch64::types::{dtype_to_regsize, spec_regsize, Addr, Operand, RegSize, Register};
use crate::codegen::error::Error;
use crate::codegen::aarch64::register_allocator::{
    allocate, allocated_rewrite, all_vregs, branches_resolved, interferes, is_allocatable, lemma_all_vregs_len, lemma_allocation_enables_rewrite, lowest_colors, spilled_of_need, written_reg, written_size,
    no_sp_into_slots, no_sp_moves, rewrite_insts, rewritten_seq, vreg_free,
};
use crate::codegen::frame::{layout_of, entries_nonneg, round_up, StackFrame, StructLayouts};
use crate::ir::function::Function;
use crate::ir::module::{Module, Registry};
use crate::ir::types::Dtype;
use crate::ir::value::{GlobalVariable, LocalVariable};

verus! {

/// The data of a global in the output.
#[derive(Debug)]
pub enum GlobalData {
    /// One 32-bit word.
    Word { value: i64 },
    /// Leading words, then this many zero bytes.
    Array { words: Vec<i64>, zero_bytes: i64 },
}

/// A global ready to be written out.
#[derive(Debug)]
pub struct GeneratedGlobal {
    pub symbol: String,
    pub data: GlobalData,
}

/// A function ready to be written out.
#[derive(Debug)]
pub struct GeneratedFunction {
    pub symbol: String,
    pub frame_size: i64,
    pub insts: Vec<Inst>,
}

/// Generates AArch64 assembly for a module.
pub struct AArch64AsmGenerator<'a> {
    module: &'a Module,
    registry: &'a Registry,
    globals: Vec<GeneratedGlobal>,
    functions: Vec<GeneratedFunction>,
}

/// The instruction that brings argument `i` into its virtual register: the
/// first eight arrive in `x0..x7`, the others on the stack above the saved
/// frame pointer and link register, eight bytes each.
pub open spec fn argument_inst(i: int, arg: LocalVariable, size: RegSize) -> Inst {
    if i < 8 {
        Inst::Mov {
            size,
            dst: Register::Virtual(arg.index),
            src: Operand::Register(Register::Physical(i as u8)),
        }
    } else {
        Inst::Ldr {
            size,
            dst: Register::Virtual(arg.index),
            addr: Addr::BaseOff { base: Register::Physical(29), offset: (16 + (i - 8) * 8) as i64 },
        }
    }
}

/// The stack offset, from the frame pointer, that an instruction loads from.
pub open spec fn frame_load_offset(inst: Inst) -> Option<i64> {
    match inst {
        Inst::Ldr { addr: Addr::BaseOff { base: Register::Physical(29), offset }, .. } => Some(offset),
        _ => None,
    }
}

/// Where arguments come from, under the AArch64 calling convention: the
/// instruction for an argument writes that argument's register, at the width
/// it is given; the first eight arguments are copied from `x0` to `x7` in
/// order; the others are loaded from the caller's stack, the ninth just
/// above the saved frame pointer and link register (16 bytes up), and each
/// later one 8 bytes above the one before.
pub proof fn lemma_argument_sources(i: int, j: int, a: LocalVariable, b: LocalVariable, s: RegSize, t: RegSize)
    requires
        0 <= i < j < 0x0fff_ffff_ffff_ffff,
    ensures
        written_reg(argument_inst(i, a, s)) == Some(Register::Virtual(a.index)),
        written_size(argument_inst(i, a, s)) == s,
        i < 8 ==> (argument_inst(i, a, s) matches Inst::Mov { src: Operand::Register(Register::Physical(n)), .. } && n == i),
        i == 8 ==> frame_load_offset(argument_inst(i, a, s)) == Some(16i64),
        8 <= i ==> frame_load_offset(argument_inst(i, a, s)) is Some && frame_load_offset(argument_inst(j, b, t)) is Some
            && frame_load_offset(argument_inst(j, b, t)).unwrap() - frame_load_offset(argument_inst(i, a, s)).unwrap() == 8 * (j - i),
{
}

/// The value of a scalar global: its first initializer, or 0.
pub open spec fn first_init(inits: Option<Vec<i32>>) -> i64 {
    match inits {
        Some(v) => if v@.len() > 0 {
            v@[0] as i64
        } else {
            0
        },
        None => 0,
    }
}

/// How many initializers of an array global of `len` elements are written as words.
pub open spec fn init_count(inits: Option<Vec<i32>>, len: int) -> int {
    match inits {
        Some(v) => if v@.len() < len {
            v@.len() as int
        } else {
            len
        },
        None => 0,
    }
}

/// The words of an array global of `len` elements.
pub open spec fn init_words(inits: Option<Vec<i32>>, len: int) -> Seq<i64> {
    match inits {
        Some(v) => v@.take(init_count(inits, len)).map_values(|x: i32| x as i64),
        None => Seq::empty(),
    }
}

impl<'a> AArch64AsmGenerator<'a> {
    /// The module this generator reads.
    pub closed spec fn spec_module(&self) -> &'a Module {
        self.module
    }

    /// The registry this generator reads.
    pub closed spec fn spec_registry(&self) -> &'a Registry {
        self.registry
    }

    /// How many globals and functions have been generated.
    pub closed spec fn generated_counts(&self) -> (nat, nat) {
        (self.globals@.len(), self.functions@.len())
    }

    /// A generator for `module`, with nothing generated yet.
    pub fn new(module: &'a Module, registry: &'a Registry) -> (r: Self)
        ensures
            r.spec_module() == module,
            r.spec_registry() == registry,
            r.generated_counts() == (0nat, 0nat),
    {
        Self { module, registry, globals: Vec::new(), functions: Vec::new() }
    }

    /// The instructions that move a function's arguments into their virtual
    /// registers; an argument whose type fits no register is refused.
    pub fn handle_arguments(func: &Function) -> (r: Result<Vec<Inst>, Error>)
        requires
            func.arguments@.len() < 0x0fff_ffff_ffff_ffff,
        ensures
            r is Ok <==> (forall|i: int| 0 <= i < func.arguments@.len() ==> (#[trigger] spec_regsize(func.arguments@[i].dtype)) is Some),
            r matches Ok(v) ==> v@.len() == func.arguments@.len() && forall|i: int|
                0 <= i < v@.len() ==> #[trigger] v@[i] == argument_inst(
                    i,
                    func.arguments@[i],
                    spec_regsize(func.arguments@[i].dtype).unwrap(),
                ),
            r matches Err(e) ==> exists|i: int|
                0 <= i < func.arguments@.len() && (#[trigger] spec_regsize(func.arguments@[i].dtype)) is None
                    && (forall|j: int| 0 <= j < i ==> (#[trigger] spec_regsize(func.arguments@[j].dtype)) is Some)
                    && e == (Error::UnsupportedDtype { dtype: func.arguments@[i].dtype }),
    {
        let mut insts: Vec<Inst> = Vec::new();
        let mut i: usize = 0;
        while i < func.arguments.len()
            invariant
                i <= func.arguments@.len(),
                func.arguments@.len() < 0x0fff_ffff_ffff_ffff,
                insts@.len() == i,
                forall|j: int| 0 <= j < i ==> ((#[trigger] spec_regsize(func.arguments@[j].dtype)) is Some),
                forall|j: int|
                    0 <= j < i ==> #[trigger] insts@[j] == argument_inst(
                        j,
                        func.arguments@[j],
                        spec_regsize(func.arguments@[j].dtype).unwrap(),
                    ),
            decreases func.arguments@.len() - i,
        {
            let arg = &func.arguments[i];
            let v = arg.index;
            let size = match dtype_to_regsize(&arg.dtype) {
                Ok(s) => s,
                Err(e) => {
                    return Err(e);
                },
            };
            if i < 8 {
                insts.push(
                    Inst::Mov {
                        size,
                        dst: Register::Virtual(v),
                        src: Operand::Register(Register::Physical(i as u8)),
                    },
                );
            } else {
                let offset: i64 = 16 + ((i - 8) as i64) * 8;
                insts.push(
                    Inst::Ldr {
                        size,
                        dst: Register::Virtual(v),
                        addr: Addr::BaseOff { base: Register::Physical(29), offset },
                    },
                );
            }
            i += 1;
        }
        Ok(insts)
    }

    /// The data of a global: a word for an `i32`, words and zero fill for an
    /// array; a global of any other type is refused.
    pub fn handle_global(layouts: &StructLayouts, g: &GlobalVariable) -> (r: Result<GeneratedGlobal, Error>)
        requires
            entries_nonneg(layouts.spec_entries()),
            g.dtype matches Dtype::Array { element, length: Some(len) } ==> (
                layout_of(layouts.spec_entries(), *element) matches Some((es, _)) ==> len * es <= i64::MAX),
        ensures
            match g.dtype {
                Dtype::I32 => r matches Ok(gg) && gg.symbol@ == g.identifier@
                    && gg.data == (GlobalData::Word { value: first_init(g.initializers) }),
                Dtype::Array { element, length: Some(len) } => match layout_of(layouts.spec_entries(), *element) {
                    Some((es, _)) => r matches Ok(gg) && gg.symbol@ == g.identifier@ && (
                        gg.data matches GlobalData::Array { words, zero_bytes }
                        && words@ == init_words(g.initializers, len as int)
                        && zero_bytes == (len - init_count(g.initializers, len as int)) * es),
                    None => r matches Err(Error::UnsupportedDtype { dtype: t }) && t == *element,
                },
                _ => r matches Err(Error::UnsupportedDtype { dtype: t }) && t == g.dtype,
            },
    {
        let symbol = g.identifier.clone();
        match &g.dtype {
            Dtype::I32 => {
                let value: i64 = match &g.initializers {
                    Some(v) => if v.len() > 0 {
                        v[0] as i64
                    } else {
                        0
                    },
                    None => 0,
                };
                Ok(GeneratedGlobal { symbol, data: GlobalData::Word { value } })
            },
            Dtype::Array { element, length: Some(len) } => {
                let (elem_size, _) = match layouts.size_align_of(&**element) {
                    Ok(p) => p,
                    Err(e) => {
                        return Err(e);
                    },
                };
                let ghost es = layout_of(layouts.spec_entries(), **element).unwrap().0;
                assert(es == elem_size as int);
                let len = *len;
                let mut words: Vec<i64> = Vec::new();
                let mut count: usize = 0;
                if let Some(inits) = &g.initializers {
                    let n = if inits.len() < len {
                        inits.len()
                    } else {
                        len
                    };
                    while count < n
                        invariant
                            count <= n,
                            n <= inits@.len(),
                            words@ == inits@.take(count as int).map_values(|x: i32| x as i64),
                        decreases n - count,
                    {
                        words.push(inits[count] as i64);
                        count += 1;
                        assert(words@ =~= inits@.take(count as int).map_values(|x: i32| x as i64));
                    }
                }
                let remaining = len - count;
                let zero_bytes: i64 = if elem_size == 0 {
                    proof {
                        assert((remaining as int) * (elem_size as int) == 0) by (nonlinear_arith)
                            requires
                                elem_size == 0;
                    }
                    0
                } else {
                    proof {
                        assert((remaining as int) * (elem_size as int) <= (len as int) * (elem_size as int))
                            by (nonlinear_arith)
                            requires
                                remaining <= len,
                                elem_size > 0;
                        assert(len as int <= (len as int) * (elem_size as int)) by (nonlinear_arith)
                            requires
                                elem_size >= 1;
                    }
                    (remaining as i64) * elem_size
                };
                Ok(GeneratedGlobal { symbol, data: GlobalData::Array { words, zero_bytes } })
            },
            _ => Err(Error::UnsupportedDtype { dtype: g.dtype.clone() }),
        }
    }
}

/// The frame size after `m` 8-byte spill slots, each 8-byte aligned, are
/// added to a frame of `start` bytes.
pub open spec fn frame_after_spills(start: int, m: nat) -> int
    decreases m,
{
    if m == 0 {
        start
    } else {
        round_up(frame_after_spills(start, (m - 1) as nat) + 8, 8)
    }
}

/// `out` is `insts` rewritten under an allocation (as `allocated_rewrite`
/// says) that gives each register the lowest free colour and spills a
/// register only when every colour is held by one it interferes with, whose
/// spilled registers have 8-byte slots that do not overlap and
/// lie below the first `start` bytes of the frame and within its
/// `frame_size` bytes, which is the frame after those slots are added,
/// rounded up to 16 bytes.
pub open spec fn allocated_in_frame(insts: Seq<Inst>, out: Seq<Inst>, start: int, frame_size: int) -> bool {
    exists|coloring: Map<usize, u8>, spilled: Set<usize>, slots: Map<usize, i64>|
        #![trigger coloring.dom().union(spilled), rewritten_seq(coloring, slots, insts)]
        {
            &&& coloring.dom().union(spilled) == all_vregs(insts)
            &&& coloring.dom().disjoint(spilled)
            &&& forall|v: usize| #[trigger] coloring.contains_key(v) ==> is_allocatable(coloring[v])
            &&& forall|a: usize, b: usize|
                #[trigger] interferes(insts, a, b) && coloring.contains_key(a) && coloring.contains_key(b) ==> coloring[a]
                    != coloring[b]
            &&& lowest_colors(insts, coloring)
            &&& forall|v: usize| #[trigger] spilled.contains(v) ==> spilled_of_need(insts, coloring, v)
            &&& forall|v: usize| #[trigger] spilled.contains(v) ==> slots.contains_key(v)
            &&& out == rewritten_seq(coloring, slots, insts)
            &&& spilled.finite()
            &&& frame_size == round_up(frame_after_spills(start, spilled.len()), 16)
            &&& forall|v: usize| #[trigger] spilled.contains(v) ==> -frame_size <= slots[v] && slots[v] + 8 <= -start
            &&& forall|a: usize, b: usize|
                #[trigger] spilled.contains(a) && #[trigger] spilled.contains(b) && a != b ==> slots[a] + 8 <= slots[b]
                    || slots[b] + 8 <= slots[a]
        }
}

impl<'a> AArch64AsmGenerator<'a> {
    /// The code of a function declared without a body: no instructions and
    /// an empty frame.  `None` for a function that has blocks.
    pub fn handle_declaration(func: &Function) -> (r: Option<GeneratedFunction>)
        ensures
            r is Some <==> func.blocks is None,
            r matches Some(g) ==> g.symbol@ == func.identifier@ && g.frame_size == 0 && g.insts@.len() == 0,
    {
        match &func.blocks {
            Some(_) => None,
            None => Some(GeneratedFunction { symbol: func.identifier.clone(), frame_size: 0, insts: Vec::new() }),
        }
    }

    /// Ends the code generation of a function whose instructions are selected:
    /// allocates registers, gives each spilled register an 8-byte slot in
    /// `frame`, rewrites the instructions over physical registers, and rounds
    /// the frame to 16 bytes.  Rewriting refuses an instruction that it cannot
    /// express (a move of the stack pointer into a register that lives in
    /// memory); without such a move the result is always `Ok`.
    pub fn finish_function(symbol: String, insts: Vec<Inst>, frame: StackFrame) -> (r: Result<GeneratedFunction, Error>)
        requires
            branches_resolved(insts@),
            forall|i: int, k: int|
                0 <= i < insts@.len() && 0 <= k < insts@[i].spec_used().len() ==> #[trigger] insts@[i].spec_used()[k]
                    < usize::MAX,
            forall|i: int, k: int|
                0 <= i < insts@.len() && 0 <= k < insts@[i].spec_defined().len()
                    ==> #[trigger] insts@[i].spec_defined()[k] < usize::MAX,
            0 <= frame.spec_size(),
            frame.spec_size() + 16 * (3 * insts@.len()) + 32 <= i64::MAX,
        ensures
            r matches Ok(g) ==> g.symbol@ == symbol@ && g.frame_size % 16 == 0 && g.frame_size >= frame.spec_size()
                && forall|k: int| 0 <= k < g.insts@.len() ==> vreg_free(#[trigger] g.insts@[k]),
            r matches Ok(g) ==> allocated_rewrite(insts@, g.insts@),
            r matches Ok(g) ==> allocated_in_frame(insts@, g.insts@, frame.spec_size(), g.frame_size as int),
            no_sp_moves(insts@) ==> r is Ok,
            r matches Err(e) ==> e is Internal,
    {
        let alloc = allocate(insts.as_slice());
        let mut frame = frame;
        let ghost start = frame.spec_size();
        proof {
            lemma_all_vregs_len(insts@, insts@.len() as int);
            alloc.spilled@.unique_seq_to_set();
            assert(alloc.spilled@.to_set().subset_of(all_vregs(insts@)));
            vstd::set_lib::lemma_len_subset(alloc.spilled@.to_set(), all_vregs(insts@));
        }
        let mut k: usize = 0;
        while k < alloc.spilled.len()
            invariant
                k <= alloc.spilled@.len(),
                alloc.spilled@.len() <= 3 * insts@.len(),
                start <= frame.spec_size() <= start + 16 * k,
                frame.spec_size() == frame_after_spills(start, k as nat),
                forall|j: int| 0 <= j < k ==> #[trigger] frame.slot_map()[alloc.spilled@[j]] + 8 <= -start,
                forall|j1: int, j2: int|
                    0 <= j1 < j2 < k ==> #[trigger] frame.slot_map()[alloc.spilled@[j2]] + 8 <= #[trigger] frame.slot_map()[alloc.spilled@[j1]],
                start + 16 * (3 * insts@.len()) + 32 <= i64::MAX,
                0 <= start,
                alloc.spilled@.no_duplicates(),
                forall|j: int| 0 <= j < k ==> frame.slot_map().contains_key(#[trigger] alloc.spilled@[j]),
                forall|j: int| 0 <= j < k ==> -frame.spec_size() <= #[trigger] frame.slot_map()[alloc.spilled@[j]] < -start,
                forall|j1: int, j2: int|
                    0 <= j1 < j2 < k ==> #[trigger] frame.slot_map()[alloc.spilled@[j1]] > #[trigger] frame.slot_map()[alloc.spilled@[j2]],
            decreases alloc.spilled@.len() - k,
        {
            let ghost before = frame.spec_size();
            let ghost slots0 = frame.slot_map();
            frame.alloc_spill(alloc.spilled[k], 8, 8);
            proof {
                assert(frame.spec_size() <= before + 16);
                assert(frame.spec_size() >= before + 8);
                assert(frame.spec_size() > before);
                assert forall|j: int| 0 <= j < k implies #[trigger] frame.slot_map()[alloc.spilled@[j]] == slots0[alloc.spilled@[j]] by {
                    assert(alloc.spilled@[j] != alloc.spilled@[k as int]);
                }
                assert(frame.slot_map()[alloc.spilled@[k as int]] == -frame.spec_size());
            }
            k += 1;
        }
        proof {
            if no_sp_moves(insts@) {
                assert(no_sp_into_slots(insts@, frame.slot_map())) by {
                    assert forall|i: int| 0 <= i < insts@.len() implies match #[trigger] insts@[i] {
                        Inst::Mov { dst: Register::Virtual(v), src: Operand::Register(Register::StackPointer), .. } => !frame.slot_map().contains_key(v),
                        _ => true,
                    } by {
                        assert(match insts@[i] {
                            Inst::Mov { dst: Register::Virtual(_), src: Operand::Register(Register::StackPointer), .. } => false,
                            _ => true,
                        });
                    }
                }
                assert forall|v: usize| #[trigger] alloc.spilled@.contains(v) implies frame.slot_map().contains_key(v) by {
                    let j = choose|j: int| 0 <= j < alloc.spilled@.len() && alloc.spilled@[j] == v;
                    assert(frame.slot_map().contains_key(alloc.spilled@[j]));
                }
                lemma_allocation_enables_rewrite(insts@, alloc, frame.slot_map());
            }
        }
        let rewritten = match rewrite_insts(insts.as_slice(), &alloc, &frame) {
            Ok(v) => v,
            Err(e) => {
                return Err(e);
            },
        };
        proof {
            let coloring = alloc.coloring@;
            let spilled = alloc.spilled@.to_set();
            let slots = frame.slot_map();
            assert forall|v: usize| #[trigger] spilled.contains(v) implies slots.contains_key(v) by {
                let j = choose|j: int| 0 <= j < alloc.spilled@.len() && alloc.spilled@[j] == v;
                assert(slots.contains_key(alloc.spilled@[j]));
            }
            assert forall|a: usize, b: usize| #[trigger] spilled.contains(a) && #[trigger] spilled.contains(b) && a != b implies slots[a] != slots[b] by {
                let ja = choose|j: int| 0 <= j < alloc.spilled@.len() && alloc.spilled@[j] == a;
                let jb = choose|j: int| 0 <= j < alloc.spilled@.len() && alloc.spilled@[j] == b;
                if ja < jb {
                    assert(slots[alloc.spilled@[ja]] > slots[alloc.spilled@[jb]]);
                } else {
                    assert(slots[alloc.spilled@[jb]] > slots[alloc.spilled@[ja]]);
                }
            }
            assert(rewritten@ == rewritten_seq(coloring, slots, insts@));
            assert(coloring.dom().union(spilled) == all_vregs(insts@));
            assert forall|v: usize| #[trigger] spilled.contains(v) implies spilled_of_need(insts@, coloring, v) by {
                assert(alloc.spilled@.contains(v));
            }
        }
        let frame_size = frame.frame_size_aligned();
        Ok(GeneratedFunction { symbol, frame_size, insts: rewritten })
    }
}

} // verus!
