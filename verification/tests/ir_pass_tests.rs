use teac::opt::cfg::jumps_are_resolved;
use teac::opt::mem2reg::mem2reg_ready_check;
use teac::opt::phi_elimination::phi_elimination_ready_check;
use teac::ir::value::GlobalVariable;
use teac::ir::function::{BasicBlock, BlockLabel, Function};
use teac::ir::stmt::{Stmt, StmtInner};
use teac::ir::types::Dtype;
use teac::ir::value::{LocalVariable, Operand};
use teac::opt::cfg::Cfg;
use teac::opt::mem2reg::{collect_candidates, Mem2RegPass};
use teac::opt::phi_elimination::PhiEliminationPass;

fn slot() -> Operand {
    Operand::local(&LocalVariable::new(Dtype::ptr_to(Dtype::I32), 1, None))
}

fn value(i: usize) -> Operand {
    Operand::local(&LocalVariable::new(Dtype::I32, i, None))
}

fn bb(n: usize) -> BlockLabel {
    BlockLabel::BasicBlock(n)
}

/// entry: alloca %1; store 0; br 1 ? bb1 : bb2
/// bb1: store 1; jump bb3    bb2: store 2; jump bb3
/// bb3: %2 = load %1; ret %2
fn diamond_function() -> Function {
    let entry = BasicBlock {
        label: BlockLabel::Function("main".to_string()),
        stmts: vec![
            Stmt::as_alloca(slot()),
            Stmt::as_store(Operand::integer(0), slot()),
            Stmt::as_cjump(Operand::integer(1), bb(1), bb(2)),
        ],
    };
    let b1 = BasicBlock { label: bb(1), stmts: vec![Stmt::as_store(Operand::integer(1), slot()), Stmt::as_jump(bb(3))] };
    let b2 = BasicBlock { label: bb(2), stmts: vec![Stmt::as_store(Operand::integer(2), slot()), Stmt::as_jump(bb(3))] };
    let b3 = BasicBlock {
        label: bb(3),
        stmts: vec![Stmt::as_load(value(2), slot()), Stmt::as_return(Some(value(2)))],
    };
    Function {
        identifier: "main".to_string(),
        local_variables: None,
        blocks: Some(vec![entry, b1, b2, b3]),
        arguments: vec![],
        next_vreg: 10,
    }
}

fn count_phis(blocks: &[BasicBlock]) -> usize {
    blocks.iter().map(|b| b.stmts.iter().filter(|s| s.is_phi()).count()).sum()
}

#[test]
fn cfg_of_a_diamond() {
    let f = diamond_function();
    let blocks = f.blocks.unwrap();
    let cfg = Cfg::from_blocks(&blocks);
    assert_eq!(cfg.num_blocks(), 4);
    assert_eq!(cfg.successors(0), &[1, 2]);
    assert_eq!(cfg.successors(1), &[3]);
    assert_eq!(cfg.successors(3), &[] as &[usize]);
    assert_eq!(cfg.predecessors(3), &[1, 2]);
}

#[test]
fn candidates_are_i32_slots() {
    let f = diamond_function();
    let blocks = f.blocks.unwrap();
    assert_eq!(collect_candidates(&blocks), vec![1]);
}

#[test]
fn mem2reg_places_a_phi_at_the_join() {
    let mut f = diamond_function();
    Mem2RegPass.run(&mut f);
    assert_eq!(f.next_vreg, 11);
    let blocks = f.blocks.as_ref().unwrap();
    assert_eq!(blocks.len(), 4);
    // the alloca and the stores are gone
    assert_eq!(blocks[0].stmts.len(), 1);
    assert!(matches!(blocks[0].stmts[0].inner, StmtInner::CJump(_)));
    assert_eq!(blocks[1].stmts.len(), 1);
    assert_eq!(blocks[2].stmts.len(), 1);
    // bb3: the PHI, then the return of its value
    assert_eq!(blocks[3].stmts.len(), 2);
    match &blocks[3].stmts[0].inner {
        StmtInner::Phi(p) => {
            assert_eq!(p.dst.vreg_index(), Some(10));
            assert_eq!(p.incomings.len(), 2);
            assert_eq!(p.incomings[0].0.key(), "bb1");
            assert_eq!(p.incomings[1].0.key(), "bb2");
            assert_eq!(p.incomings[0].1.as_integer().map(|i| i.value), Some(1));
            assert_eq!(p.incomings[1].1.as_integer().map(|i| i.value), Some(2));
        },
        _ => panic!("expected a PHI"),
    }
    match &blocks[3].stmts[1].inner {
        StmtInner::Return(r) => assert_eq!(r.val.as_ref().unwrap().vreg_index(), Some(10)),
        _ => panic!("expected a return"),
    }
}

#[test]
fn mem2reg_keeps_a_slot_read_before_any_store() {
    // the load in bb3 is not dominated by a store: nothing is promoted
    let mut f = diamond_function();
    f.blocks.as_mut().unwrap()[0].stmts.remove(1);
    let before = f.blocks.as_ref().unwrap().iter().map(|b| b.stmts.len()).collect::<Vec<_>>();
    Mem2RegPass.run(&mut f);
    let after = f.blocks.as_ref().unwrap().iter().map(|b| b.stmts.len()).collect::<Vec<_>>();
    assert_eq!(before, after);
    assert_eq!(f.next_vreg, 10);
}

#[test]
fn mem2reg_leaves_a_declaration() {
    let mut f = diamond_function();
    f.blocks = None;
    Mem2RegPass.run(&mut f);
    assert!(f.blocks.is_none());
}

#[test]
fn phi_elimination_removes_every_phi() {
    let mut f = diamond_function();
    Mem2RegPass.run(&mut f);
    assert_eq!(count_phis(f.blocks.as_ref().unwrap()), 1);
    PhiEliminationPass.run(&mut f);
    let blocks = f.blocks.as_ref().unwrap();
    assert_eq!(count_phis(blocks), 0);
    assert!(blocks.len() >= 4);
    assert_eq!(blocks[0].label.key(), "main");
    assert_eq!(blocks[3].label.key(), "bb3");
}

#[test]
fn phi_elimination_keeps_the_other_statements() {
    let mut f = diamond_function();
    Mem2RegPass.run(&mut f);
    PhiEliminationPass.run(&mut f);
    assert_eq!(f.next_vreg, 12);
    let blocks = f.blocks.as_ref().unwrap();
    assert_eq!(blocks.len(), 4);
    // the slot is allocated in the entry block, before its branch
    assert_eq!(blocks[0].stmts.len(), 2);
    match &blocks[0].stmts[0].inner {
        StmtInner::Alloca(a) => assert_eq!(a.dst.vreg_index(), Some(11)),
        _ => panic!("expected an alloca"),
    }
    assert!(matches!(blocks[0].stmts[1].inner, StmtInner::CJump(_)));
    // each predecessor stores its value before its jump
    for (b, v) in [(1usize, 1i32), (2, 2)] {
        assert_eq!(blocks[b].stmts.len(), 2);
        match &blocks[b].stmts[0].inner {
            StmtInner::Store(s) => {
                assert_eq!(s.src.as_integer().map(|i| i.value), Some(v));
                assert_eq!(s.ptr.vreg_index(), Some(11));
            },
            _ => panic!("expected a store"),
        }
        assert!(matches!(blocks[b].stmts[1].inner, StmtInner::Jump(_)));
    }
    // the join loads the value and returns it
    assert_eq!(blocks[3].stmts.len(), 2);
    match &blocks[3].stmts[0].inner {
        StmtInner::Load(l) => {
            assert_eq!(l.dst.vreg_index(), Some(10));
            assert_eq!(l.ptr.vreg_index(), Some(11));
        },
        _ => panic!("expected a load"),
    }
    assert!(matches!(blocks[3].stmts[1].inner, StmtInner::Return(_)));
}

#[test]
fn phi_elimination_leaves_phi_free_code() {
    let mut f = diamond_function();
    let before = f.blocks.as_ref().unwrap().iter().map(|b| b.stmts.len()).collect::<Vec<_>>();
    PhiEliminationPass.run(&mut f);
    let after = f.blocks.as_ref().unwrap().iter().map(|b| b.stmts.len()).collect::<Vec<_>>();
    assert_eq!(before, after);
}

#[test]
fn block_label_keys() {
    assert_eq!(bb(12).key(), "bb12");
    assert_eq!(BlockLabel::Function("main".to_string()).key(), "main");
}

#[test]
fn readiness_checks() {
    let f = diamond_function();
    let blocks = f.blocks.unwrap();
    assert!(jumps_are_resolved(&blocks));
    assert!(mem2reg_ready_check(&blocks, 10));
    assert!(!mem2reg_ready_check(&blocks, usize::MAX - 3));
    assert!(phi_elimination_ready_check(&blocks, 10));
    let mut broken = diamond_function().blocks.unwrap();
    broken[1].stmts[1] = Stmt::as_jump(bb(9));
    assert!(!jumps_are_resolved(&broken));
    assert!(!mem2reg_ready_check(&broken, 10));
    assert!(!phi_elimination_ready_check(&broken, 10));
}

#[test]
fn phi_with_a_global_destination_is_not_ready() {
    let mut blocks = diamond_function().blocks.unwrap();
    let g = GlobalVariable { dtype: Dtype::I32, identifier: "g".to_string(), initializers: None };
    blocks[3].stmts.insert(0, Stmt::as_phi(Operand::Global(g), vec![]));
    assert!(!phi_elimination_ready_check(&blocks, 10));
}

#[test]
fn phi_elimination_splits_a_critical_edge() {
    let entry = BasicBlock {
        label: BlockLabel::Function("main".to_string()),
        stmts: vec![Stmt::as_cjump(Operand::integer(1), bb(1), bb(2))],
    };
    let b1 = BasicBlock { label: bb(1), stmts: vec![Stmt::as_jump(bb(2))] };
    let b2 = BasicBlock {
        label: bb(2),
        stmts: vec![
            Stmt::as_phi(value(5), vec![(BlockLabel::Function("main".to_string()), Operand::integer(10)), (bb(1), Operand::integer(20))]),
            Stmt::as_return(Some(value(5))),
        ],
    };
    let mut f = Function {
        identifier: "main".to_string(),
        local_variables: None,
        blocks: Some(vec![entry, b1, b2]),
        arguments: vec![],
        next_vreg: 10,
    };
    PhiEliminationPass.run(&mut f);
    assert_eq!(f.next_vreg, 11);
    let blocks = f.blocks.as_ref().unwrap();
    assert_eq!(blocks.len(), 4);
    // entry: the slot, then the branch, whose false edge now goes to the new block
    assert_eq!(blocks[0].stmts.len(), 2);
    assert!(matches!(blocks[0].stmts[0].inner, StmtInner::Alloca(_)));
    match &blocks[0].stmts[1].inner {
        StmtInner::CJump(c) => {
            assert_eq!(c.true_label.key(), "bb1");
            assert_eq!(c.false_label.key(), "bb3");
        },
        _ => panic!("expected a branch"),
    }
    // bb1 has one successor: it stores its value before its jump
    assert_eq!(blocks[1].stmts.len(), 2);
    match &blocks[1].stmts[0].inner {
        StmtInner::Store(s) => {
            assert_eq!(s.src.as_integer().map(|i| i.value), Some(20));
            assert_eq!(s.ptr.vreg_index(), Some(10));
        },
        _ => panic!("expected a store"),
    }
    // bb2 loads the value
    match &blocks[2].stmts[0].inner {
        StmtInner::Load(l) => {
            assert_eq!(l.dst.vreg_index(), Some(5));
            assert_eq!(l.ptr.vreg_index(), Some(10));
        },
        _ => panic!("expected a load"),
    }
    // the new block stores the entry's value and jumps to bb2
    assert_eq!(blocks[3].label.key(), "bb3");
    assert_eq!(blocks[3].stmts.len(), 2);
    match &blocks[3].stmts[0].inner {
        StmtInner::Store(s) => assert_eq!(s.src.as_integer().map(|i| i.value), Some(10)),
        _ => panic!("expected a store"),
    }
    match &blocks[3].stmts[1].inner {
        StmtInner::Jump(j) => assert_eq!(j.target.key(), "bb2"),
        _ => panic!("expected a jump"),
    }
}

#[test]
fn mem2reg_reads_the_dominating_store() {
    // entry: alloca %1; store 7; jump bb1    bb1: %2 = load %1; ret %2
    let entry = BasicBlock {
        label: BlockLabel::Function("main".to_string()),
        stmts: vec![Stmt::as_alloca(slot()), Stmt::as_store(Operand::integer(7), slot()), Stmt::as_jump(bb(1))],
    };
    let b1 = BasicBlock { label: bb(1), stmts: vec![Stmt::as_load(value(2), slot()), Stmt::as_return(Some(value(2)))] };
    let mut f = Function {
        identifier: "main".to_string(),
        local_variables: None,
        blocks: Some(vec![entry, b1]),
        arguments: vec![],
        next_vreg: 10,
    };
    Mem2RegPass.run(&mut f);
    let blocks = f.blocks.as_ref().unwrap();
    assert_eq!(count_phis(blocks), 0);
    assert_eq!(blocks[0].stmts.len(), 1);
    assert_eq!(blocks[1].stmts.len(), 1);
    match &blocks[1].stmts[0].inner {
        StmtInner::Return(r) => assert_eq!(r.val.as_ref().unwrap().as_integer().map(|i| i.value), Some(7)),
        _ => panic!("expected a return"),
    }
}

#[test]
fn mem2reg_both_branches_read_the_dominating_store() {
    // main: alloca %1; store 7; cjump %9 bb1 bb2
    // bb1: %2 = load %1; store 1; ret %2      bb2: %3 = load %1; store 2; ret %3
    let entry = BasicBlock {
        label: BlockLabel::Function("main".to_string()),
        stmts: vec![
            Stmt::as_alloca(slot()),
            Stmt::as_store(Operand::integer(7), slot()),
            Stmt::as_cjump(value(9), bb(1), bb(2)),
        ],
    };
    let b1 = BasicBlock {
        label: bb(1),
        stmts: vec![Stmt::as_load(value(2), slot()), Stmt::as_store(Operand::integer(1), slot()), Stmt::as_return(Some(value(2)))],
    };
    let b2 = BasicBlock {
        label: bb(2),
        stmts: vec![Stmt::as_load(value(3), slot()), Stmt::as_store(Operand::integer(2), slot()), Stmt::as_return(Some(value(3)))],
    };
    let mut f = Function {
        identifier: "main".to_string(),
        local_variables: None,
        blocks: Some(vec![entry, b1, b2]),
        arguments: vec![],
        next_vreg: 10,
    };
    Mem2RegPass.run(&mut f);
    let blocks = f.blocks.as_ref().unwrap();
    assert_eq!(count_phis(blocks), 0);
    assert_eq!(blocks[0].stmts.len(), 1);
    assert!(matches!(blocks[0].stmts[0].inner, StmtInner::CJump(_)));
    for b in 1..3 {
        assert_eq!(blocks[b].stmts.len(), 1);
        match &blocks[b].stmts[0].inner {
            StmtInner::Return(r) => assert_eq!(r.val.as_ref().unwrap().as_integer().map(|i| i.value), Some(7)),
            _ => panic!("expected a return"),
        }
    }
}
