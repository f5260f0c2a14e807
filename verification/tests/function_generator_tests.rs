use indexmap::IndexMap;
use teac::ir::error::Error;
use teac::ir::function::{BlockLabel, FunctionGenerator};
use teac::ir::module::Registry;
use teac::ir::stmt::StmtInner;
use teac::ir::types::Dtype;
use teac::ir::value::{GlobalVariable, LocalVariable, Operand};

fn empty_registry() -> Registry {
    Registry { struct_types: IndexMap::new(), function_types: IndexMap::new() }
}

fn one_global() -> IndexMap<String, GlobalVariable> {
    let mut globals = IndexMap::new();
    globals.insert(
        "g".to_string(),
        GlobalVariable { dtype: Dtype::I32, identifier: "g".to_string(), initializers: None },
    );
    globals
}

#[test]
fn generator_starts_empty() {
    let registry = empty_registry();
    let globals = IndexMap::new();
    let g = FunctionGenerator::new(&registry, &globals);
    assert_eq!(g.next_vreg, 0);
    assert_eq!(g.next_basic_block, 1);
    assert!(g.irs.is_empty());
    assert!(g.arguments.is_empty());
    assert!(g.local_variables.is_empty());
}

#[test]
fn registers_and_blocks_are_handed_out_in_order() {
    let registry = empty_registry();
    let globals = IndexMap::new();
    let mut g = FunctionGenerator::new(&registry, &globals);
    assert_eq!(g.alloc_vreg(), 0);
    assert_eq!(g.alloc_vreg(), 1);
    match g.alloc_temporary(Dtype::I32) {
        Operand::Local(r) => assert_eq!(r.index, 2),
        other => panic!("unexpected {:?}", other),
    }
    assert_eq!(g.next_vreg, 3);
    assert!(matches!(g.alloc_basic_block(), BlockLabel::BasicBlock(1)));
    assert!(matches!(g.alloc_basic_block(), BlockLabel::BasicBlock(2)));
    assert_eq!(g.next_basic_block, 3);
}

#[test]
fn lookup_prefers_locals_then_globals() {
    let registry = empty_registry();
    let globals = one_global();
    let mut g = FunctionGenerator::new(&registry, &globals);
    match g.lookup_variable("g") {
        Ok(Operand::Global(v)) => assert_eq!(v.identifier, "g"),
        other => panic!("unexpected {:?}", other),
    }
    g.local_variables.insert("g".to_string(), LocalVariable::new(Dtype::I32, 7, Some("g".to_string())));
    match g.lookup_variable("g") {
        Ok(Operand::Local(r)) => assert_eq!(r.index, 7),
        other => panic!("unexpected {:?}", other),
    }
    match g.lookup_variable("missing") {
        Err(Error::VariableNotDefined { symbol }) => assert_eq!(symbol, "missing"),
        other => panic!("unexpected {:?}", other),
    }
}

#[test]
fn leaving_a_scope_drops_its_locals() {
    let registry = empty_registry();
    let globals = IndexMap::new();
    let mut g = FunctionGenerator::new(&registry, &globals);
    g.local_variables.insert("outer".to_string(), LocalVariable::new(Dtype::I32, 0, None));
    g.enter_scope();
    g.local_variables.insert("inner".to_string(), LocalVariable::new(Dtype::I32, 1, None));
    g.record_scoped_local("inner".to_string());
    g.exit_scope();
    assert!(g.local_variables.contains_key("outer"));
    assert!(!g.local_variables.contains_key("inner"));
    // With no scope open, nothing is recorded or removed.
    g.record_scoped_local("outer".to_string());
    g.exit_scope();
    assert!(g.local_variables.contains_key("outer"));
}

#[test]
fn emitters_append_in_order() {
    let registry = empty_registry();
    let globals = IndexMap::new();
    let mut g = FunctionGenerator::new(&registry, &globals);
    let slot = g.alloc_temporary(Dtype::ptr_to(Dtype::I32));
    g.emit_label(BlockLabel::BasicBlock(1));
    g.emit_alloca(slot);
    g.emit_jump(BlockLabel::BasicBlock(2));
    g.emit_return(None);
    assert_eq!(g.irs.len(), 4);
    assert!(matches!(g.irs[0].inner, StmtInner::Label(_)));
    assert!(matches!(g.irs[1].inner, StmtInner::Alloca(_)));
    assert!(matches!(g.irs[2].inner, StmtInner::Jump(_)));
    assert!(matches!(g.irs[3].inner, StmtInner::Return(_)));
}
