use teac::codegen::aarch64::inst::Inst;
use std::collections::HashMap;
use teac::codegen::aarch64::register_allocator::{allocate, rewrite_insts, AllocationResult};
use teac::codegen::aarch64::types::{dtype_to_regsize, Addr, BinOp, Operand, RegSize, Register};
use teac::codegen::aarch64::{AArch64AsmGenerator, GlobalData};
use teac::codegen::error::Error;
use teac::codegen::frame::{StackFrame, StructLayouts};
use teac::common::Target;
use teac::ir::function::Function;
use teac::ir::types::Dtype;
use teac::ir::value::{GlobalVariable, LocalVariable};

fn v(i: usize) -> Register {
    Register::Virtual(i)
}

fn func_with_args(n: usize) -> Function {
    let mut arguments = Vec::new();
    for i in 0..n {
        arguments.push(LocalVariable::new(Dtype::I32, 100 + i, None));
    }
    Function { identifier: "f".to_string(), local_variables: None, blocks: None, arguments, next_vreg: 200 }
}

#[test]
fn register_sizes() {
    assert!(matches!(dtype_to_regsize(&Dtype::I32), Ok(RegSize::W32)));
    assert!(matches!(dtype_to_regsize(&Dtype::I1), Ok(RegSize::W32)));
    assert!(matches!(dtype_to_regsize(&Dtype::ptr_to(Dtype::I32)), Ok(RegSize::X64)));
    assert!(matches!(dtype_to_regsize(&Dtype::Void), Err(Error::UnsupportedDtype { dtype: Dtype::Void })));
}

#[test]
fn arguments_come_from_registers_then_the_stack() {
    let f = func_with_args(10);
    let insts = AArch64AsmGenerator::handle_arguments(&f).unwrap();
    assert_eq!(insts.len(), 10);
    match &insts[3] {
        Inst::Mov { size: RegSize::W32, dst: Register::Virtual(103), src: Operand::Register(Register::Physical(3)) } => {},
        other => panic!("unexpected {:?}", other),
    }
    match &insts[9] {
        Inst::Ldr { size: RegSize::W32, dst: Register::Virtual(109), addr: Addr::BaseOff { base: Register::Physical(29), offset } } => {
            assert_eq!(*offset, 24)
        },
        other => panic!("unexpected {:?}", other),
    }
}

#[test]
fn arguments_of_struct_type_are_refused() {
    let mut f = func_with_args(2);
    f.arguments[1].dtype = Dtype::Struct { struct_name: "Node".to_string() };
    assert!(matches!(
        AArch64AsmGenerator::handle_arguments(&f),
        Err(Error::UnsupportedDtype { dtype: Dtype::Struct { .. } })
    ));
}

#[test]
fn scalar_global_takes_its_first_initializer() {
    let layouts = StructLayouts::new();
    let g = GlobalVariable { dtype: Dtype::I32, identifier: "x".to_string(), initializers: Some(vec![7]) };
    let r = AArch64AsmGenerator::handle_global(&layouts, &g).unwrap();
    assert_eq!(r.symbol, "x");
    assert!(matches!(r.data, GlobalData::Word { value: 7 }));
    let g = GlobalVariable { dtype: Dtype::I32, identifier: "y".to_string(), initializers: None };
    let r = AArch64AsmGenerator::handle_global(&layouts, &g).unwrap();
    assert!(matches!(r.data, GlobalData::Word { value: 0 }));
}

#[test]
fn array_global_is_words_then_zeros() {
    let layouts = StructLayouts::new();
    let g = GlobalVariable {
        dtype: Dtype::array_of(Dtype::I32, 5),
        identifier: "a".to_string(),
        initializers: Some(vec![1, -2]),
    };
    let r = AArch64AsmGenerator::handle_global(&layouts, &g).unwrap();
    match r.data {
        GlobalData::Array { words, zero_bytes } => {
            assert_eq!(words, vec![1, -2]);
            assert_eq!(zero_bytes, 12);
        },
        _ => panic!("expected an array"),
    }
    let g = GlobalVariable { dtype: Dtype::array_of(Dtype::I32, 100), identifier: "q".to_string(), initializers: None };
    match AArch64AsmGenerator::handle_global(&layouts, &g).unwrap().data {
        GlobalData::Array { words, zero_bytes } => {
            assert!(words.is_empty());
            assert_eq!(zero_bytes, 400);
        },
        _ => panic!("expected an array"),
    }
}

#[test]
fn array_of_structs_uses_the_layout() {
    let mut layouts = StructLayouts::new();
    layouts.insert("Node".to_string(), 8, 4);
    let g = GlobalVariable {
        dtype: Dtype::array_of(Dtype::Struct { struct_name: "Node".to_string() }, 3),
        identifier: "nodes".to_string(),
        initializers: None,
    };
    match AArch64AsmGenerator::handle_global(&layouts, &g).unwrap().data {
        GlobalData::Array { zero_bytes, .. } => assert_eq!(zero_bytes, 24),
        _ => panic!("expected an array"),
    }
    assert!(matches!(layouts.size_align_of(&Dtype::array_of(Dtype::I32, 4)), Ok((16, 4))));
    assert!(matches!(layouts.size_align_of(&Dtype::Struct { struct_name: "Other".to_string() }), Err(_)));
}

#[test]
fn global_of_other_type_is_refused() {
    let layouts = StructLayouts::new();
    let g = GlobalVariable { dtype: Dtype::Struct { struct_name: "S".to_string() }, identifier: "s".to_string(), initializers: None };
    assert!(matches!(AArch64AsmGenerator::handle_global(&layouts, &g), Err(Error::UnsupportedDtype { .. })));
}

#[test]
fn mangled_symbols() {
    assert_eq!(Target::Macos.mangle_symbol("main"), "_main");
    assert_eq!(Target::Linux.mangle_symbol("main"), "main");
}

#[test]
fn allocation_keeps_interfering_registers_apart() {
    let insts = vec![
        Inst::Mov { size: RegSize::W32, dst: v(1), src: Operand::Immediate(1) },
        Inst::Mov { size: RegSize::W32, dst: v(2), src: Operand::Immediate(2) },
        Inst::BinOp { op: BinOp::Add, size: RegSize::W32, dst: v(3), lhs: v(1), rhs: Operand::Register(v(2)) },
        Inst::Mov { size: RegSize::W32, dst: Register::Physical(0), src: Operand::Register(v(3)) },
        Inst::Ret,
    ];
    let alloc = allocate(&insts);
    assert!(alloc.spilled.is_empty());
    let c1 = alloc.coloring[&1];
    let c2 = alloc.coloring[&2];
    assert_ne!(c1, c2);
    for c in [c1, c2, alloc.coloring[&3]] {
        assert!((8..16).contains(&c));
    }
    let frame = StackFrame::new();
    let out = rewrite_insts(&insts, &alloc, &frame).unwrap();
    for inst in &out {
        let text = format!("{:?}", inst);
        assert!(!text.contains("Virtual"), "{}", text);
    }
}

#[test]
fn many_live_registers_spill() {
    let mut insts = Vec::new();
    for i in 0..12 {
        insts.push(Inst::Mov { size: RegSize::W32, dst: v(i), src: Operand::Immediate(i as i64) });
    }
    for i in 0..12 {
        insts.push(Inst::Mov { size: RegSize::W32, dst: Register::Physical(0), src: Operand::Register(v(i)) });
    }
    insts.push(Inst::Ret);
    let alloc = allocate(&insts);
    assert!(!alloc.spilled.is_empty());
    for i in 0..12usize {
        assert!(alloc.coloring.contains_key(&i) != alloc.spilled.contains(&i));
    }
    for a in 0..12usize {
        for b in 0..12usize {
            if a != b {
                if let (Some(x), Some(y)) = (alloc.coloring.get(&a), alloc.coloring.get(&b)) {
                    assert_ne!(x, y);
                }
            }
        }
    }
}

#[test]
fn rewriting_without_a_color_fails() {
    let insts = vec![Inst::Mov { size: RegSize::W32, dst: v(1), src: Operand::Immediate(1) }];
    let alloc = AllocationResult::empty();
    let frame = StackFrame::new();
    assert!(rewrite_insts(&insts, &alloc, &frame).is_err());
}

#[test]
fn spilled_registers_rewrite_through_their_slots() {
    let mut insts = Vec::new();
    for i in 0..12 {
        insts.push(Inst::Mov { size: RegSize::W32, dst: v(i), src: Operand::Immediate(i as i64) });
    }
    for i in 0..12 {
        insts.push(Inst::BinOp { op: BinOp::Add, size: RegSize::W32, dst: v(20 + i), lhs: v(i), rhs: Operand::Immediate(1) });
    }
    for i in 0..12 {
        insts.push(Inst::Mov { size: RegSize::W32, dst: Register::Physical(0), src: Operand::Register(v(20 + i)) });
    }
    insts.push(Inst::Ret);
    let alloc = allocate(&insts);
    assert!(!alloc.spilled.is_empty());
    let mut frame = StackFrame::new();
    for s in alloc.spilled.iter().copied() {
        frame.alloc_spill(s, 8, 8);
    }
    assert_eq!(frame.frame_size_aligned() % 16, 0);
    let out = rewrite_insts(&insts, &alloc, &frame).unwrap();
    for inst in &out {
        assert!(!format!("{:?}", inst).contains("Virtual"));
    }
}

#[test]
fn finishing_a_function_rounds_the_frame() {
    let mut insts = Vec::new();
    for i in 0..10 {
        insts.push(Inst::Mov { size: RegSize::W32, dst: v(i), src: Operand::Immediate(i as i64) });
    }
    for i in 0..10 {
        insts.push(Inst::Mov { size: RegSize::W32, dst: Register::Physical(0), src: Operand::Register(v(i)) });
    }
    insts.push(Inst::Ret);
    let g = AArch64AsmGenerator::finish_function("f".to_string(), insts, StackFrame::new()).unwrap();
    assert_eq!(g.symbol, "f");
    assert_eq!(g.frame_size % 16, 0);
    assert!(g.frame_size >= 16);
    assert!(g.insts.iter().all(|i| !format!("{:?}", i).contains("Virtual")));
}

#[test]
fn finishing_an_empty_function() {
    let g = AArch64AsmGenerator::finish_function("g".to_string(), vec![], StackFrame::new()).unwrap();
    assert_eq!(g.frame_size, 0);
    assert!(g.insts.is_empty());
}

#[test]
fn rewriting_emits_exact_spill_code() {
    let insts = vec![
        Inst::Mov { size: RegSize::W32, dst: v(1), src: Operand::Immediate(5) },
        Inst::Mov { size: RegSize::W32, dst: v(2), src: Operand::Immediate(7) },
        Inst::BinOp { op: BinOp::Add, size: RegSize::W32, dst: v(3), lhs: v(1), rhs: Operand::Register(v(2)) },
        Inst::Mov { size: RegSize::W32, dst: Register::Physical(0), src: Operand::Register(v(3)) },
        Inst::Ret,
    ];
    let mut coloring = HashMap::new();
    coloring.insert(1usize, 9u8);
    let alloc = AllocationResult { coloring, spilled: vec![2, 3] };
    let mut frame = StackFrame::new();
    frame.alloc_spill(2, 8, 8);
    frame.alloc_spill(3, 8, 8);
    let slot = |off: i64| Addr::BaseOff { base: Register::Physical(29), offset: off };
    let p = Register::Physical;
    let expected = vec![
        Inst::Mov { size: RegSize::W32, dst: p(9), src: Operand::Immediate(5) },
        Inst::Mov { size: RegSize::W32, dst: p(16), src: Operand::Immediate(7) },
        Inst::Str { size: RegSize::W32, src: p(16), addr: slot(-8) },
        Inst::Ldr { size: RegSize::W32, dst: p(17), addr: slot(-8) },
        Inst::BinOp { op: BinOp::Add, size: RegSize::W32, dst: p(16), lhs: p(9), rhs: Operand::Register(p(17)) },
        Inst::Str { size: RegSize::W32, src: p(16), addr: slot(-16) },
        Inst::Ldr { size: RegSize::W32, dst: p(17), addr: slot(-16) },
        Inst::Mov { size: RegSize::W32, dst: p(0), src: Operand::Register(p(17)) },
        Inst::Ret,
    ];
    let out = rewrite_insts(&insts, &alloc, &frame).unwrap();
    assert_eq!(format!("{:?}", out), format!("{:?}", expected));
}

#[test]
fn registers_spill_only_when_every_color_is_taken() {
    let mut insts = Vec::new();
    for i in 0..12 {
        insts.push(Inst::Mov { size: RegSize::W32, dst: v(i), src: Operand::Immediate(i as i64) });
    }
    for i in 0..12 {
        insts.push(Inst::Mov { size: RegSize::W32, dst: Register::Physical(0), src: Operand::Register(v(i)) });
    }
    insts.push(Inst::Ret);
    let alloc = allocate(&insts);
    // all twelve are live at once: eight get the eight colors, four spill
    assert_eq!(alloc.spilled.len(), 4);
    let mut colors: Vec<u8> = alloc.coloring.values().copied().collect();
    colors.sort();
    assert_eq!(colors, (8u8..16).collect::<Vec<u8>>());
}

#[test]
fn rewrite_maps_any_color_when_nothing_spills() {
    let insts = vec![
        Inst::Mov { size: RegSize::W32, dst: v(0), src: Operand::Immediate(3) },
        Inst::Mov { size: RegSize::W32, dst: Register::Physical(0), src: Operand::Register(v(0)) },
    ];
    let mut coloring = HashMap::new();
    coloring.insert(0usize, 21u8);
    let alloc = AllocationResult { coloring, spilled: vec![] };
    let frame = StackFrame::new();
    let out = rewrite_insts(&insts, &alloc, &frame).unwrap();
    assert_eq!(out.len(), 2);
    assert!(matches!(out[0], Inst::Mov { dst: Register::Physical(21), src: Operand::Immediate(3), .. }));
    assert!(matches!(out[1], Inst::Mov { dst: Register::Physical(0), src: Operand::Register(Register::Physical(21)), .. }));
}

#[test]
fn finishing_uses_the_lowest_register_and_no_frame() {
    // One short-lived register: it takes x8 and nothing spills.
    let insts = vec![
        Inst::Mov { size: RegSize::W32, dst: v(0), src: Operand::Immediate(4) },
        Inst::Mov { size: RegSize::W32, dst: Register::Physical(0), src: Operand::Register(v(0)) },
        Inst::Ret,
    ];
    let g = AArch64AsmGenerator::finish_function("h".to_string(), insts, StackFrame::new()).unwrap();
    assert_eq!(g.frame_size, 0);
    assert_eq!(g.insts.len(), 3);
    assert!(matches!(g.insts[0], Inst::Mov { dst: Register::Physical(8), src: Operand::Immediate(4), .. }));
    assert!(matches!(g.insts[1], Inst::Mov { dst: Register::Physical(0), src: Operand::Register(Register::Physical(8)), .. }));
}
