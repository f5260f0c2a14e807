use vstd::prelude::*;
use indexmap::IndexMap;
use super::error::Error;
use super::module::Registry;
use super::stmt::{ArithBinOp, CmpPredicate, Stmt};
use super::types::Dtype;
use super::value::{GlobalVariable, LocalVariable, Operand, same_operand};
use crate::common::text::{decimal, push_decimal, push_str};

verus! {

#[verifier::external_type_specification]
#[verifier::external_body]
#[verifier::reject_recursive_types(K)]
#[verifier::reject_recursive_types(V)]
#[verifier::reject_recursive_types(S)]
pub struct ExIndexMap<K, V, S>(IndexMap<K, V, S>);

/// The label of a basic block: a numbered block, or a function's entry.
#[derive(Debug)]
pub enum BlockLabel {
    BasicBlock(usize),
    Function(String),
}

impl Clone for BlockLabel {
    fn clone(&self) -> (r: Self)
        ensures
            r == *self,
    {
        match self {
            BlockLabel::BasicBlock(n) => BlockLabel::BasicBlock(*n),
            BlockLabel::Function(s) => BlockLabel::Function(s.clone()),
        }
    }
}

/// The text of a label: `bb<n>` for a numbered block, the name for an entry.
pub open spec fn label_key(l: BlockLabel) -> Seq<char> {
    match l {
        BlockLabel::BasicBlock(n) => seq!['b', 'b'] + decimal(n as nat),
        BlockLabel::Function(s) => s@,
    }
}

impl BlockLabel {
    /// The label's text, by which jumps find their targets.
    pub fn key(&self) -> (r: String)
        ensures
            r@ == label_key(*self),
    {
        match self {
            BlockLabel::BasicBlock(n) => {
                let mut s = String::new();
                push_str(&mut s, "bb");
                push_decimal(&mut s, *n as u64);
                proof {
                    reveal_strlit("bb");
                    assert(s@ =~= label_key(*self));
                }
                s
            },
            BlockLabel::Function(name) => name.clone(),
        }
    }
}

/// A labelled list of statements.
#[derive(Debug)]
pub struct BasicBlock {
    pub label: BlockLabel,
    pub stmts: Vec<Stmt>,
}

/// A function: its name, local variables, blocks (none for a declaration),
/// arguments, and the next free virtual register.
pub struct Function {
    pub identifier: String,
    pub local_variables: Option<IndexMap<String, LocalVariable>>,
    pub blocks: Option<Vec<BasicBlock>>,
    pub arguments: Vec<LocalVariable>,
    pub next_vreg: usize,
}

/// What an `IndexMap` of local variables holds, by name.
pub uninterp spec fn local_entries(m: IndexMap<String, LocalVariable>) -> Map<Seq<char>, LocalVariable>;

/// What an `IndexMap` of global variables holds, by name.
pub uninterp spec fn global_entries(m: IndexMap<String, GlobalVariable>) -> Map<Seq<char>, GlobalVariable>;

/// Calls `IndexMap::new`; claimed: the map it returns holds no entry.
#[verifier::external_body]
fn local_map_new() -> (r: IndexMap<String, LocalVariable>)
    ensures
        forall|k: Seq<char>| !(#[trigger] local_entries(r).contains_key(k)),
{
    IndexMap::new()
}

/// Calls `IndexMap::get` on a map of locals; claimed: it returns an entry exactly
/// when the map holds one under a key whose text is `id`, and then that entry.
#[verifier::external_body]
fn local_map_get<'a>(m: &'a IndexMap<String, LocalVariable>, id: &str) -> (r: Option<&'a LocalVariable>)
    ensures
        r is Some <==> local_entries(*m).contains_key(id@),
        r matches Some(v) ==> *v == local_entries(*m)[id@],
{
    m.get(id)
}

/// Calls `IndexMap::get` on a map of globals; claimed: it returns an entry exactly
/// when the map holds one under a key whose text is `id`, and then that entry.
#[verifier::external_body]
fn global_map_get<'a>(m: &'a IndexMap<String, GlobalVariable>, id: &str) -> (r: Option<&'a GlobalVariable>)
    ensures
        r is Some <==> global_entries(*m).contains_key(id@),
        r matches Some(v) ==> *v == global_entries(*m)[id@],
{
    m.get(id)
}

/// Calls `IndexMap::shift_remove`; claimed: afterwards the map holds what it held
/// before except an entry under key `id` (the order of the rest is not stated).
#[verifier::external_body]
fn local_map_remove(m: &mut IndexMap<String, LocalVariable>, id: &String)
    ensures
        local_entries(*final(m)) == local_entries(*old(m)).remove(id@),
{
    m.shift_remove(id);
}

/// `m` without the entries named in `ids`.
pub open spec fn without_keys(m: Map<Seq<char>, LocalVariable>, ids: Seq<String>) -> Map<Seq<char>, LocalVariable>
    decreases ids.len(),
{
    if ids.len() == 0 {
        m
    } else {
        without_keys(m, ids.drop_last()).remove(ids.last()@)
    }
}

/// The state of IR generation for one function: the variables in scope, the
/// names declared in each open scope, the statements emitted so far, and the
/// next free register and block numbers.
pub struct FunctionGenerator<'ir> {
    pub registry: &'ir Registry,
    pub global_variables: &'ir IndexMap<String, GlobalVariable>,
    pub local_variables: IndexMap<String, LocalVariable>,
    pub scope_locals: Vec<Vec<String>>,
    pub irs: Vec<Stmt>,
    pub arguments: Vec<LocalVariable>,
    pub next_vreg: usize,
    pub next_basic_block: usize,
}

impl<'ir> FunctionGenerator<'ir> {
    /// The names declared in each open scope, innermost last.
    pub open spec fn scopes(&self) -> Seq<Seq<String>> {
        self.scope_locals@.map_values(|v: Vec<String>| v@)
    }

    /// A generator with no locals, scopes, statements or arguments, whose
    /// registers start at 0 and blocks at 1.
    pub fn new(registry: &'ir Registry, global_variables: &'ir IndexMap<String, GlobalVariable>) -> (r: Self)
        ensures
            r.registry == registry,
            r.global_variables == global_variables,
            local_entries(r.local_variables) == Map::<Seq<char>, LocalVariable>::empty(),
            r.scopes() == Seq::<Seq<String>>::empty(),
            r.irs@.len() == 0,
            r.arguments@.len() == 0,
            r.next_vreg == 0,
            r.next_basic_block == 1,
    {
        let r = FunctionGenerator {
            registry,
            global_variables,
            local_variables: local_map_new(),
            scope_locals: Vec::new(),
            irs: Vec::new(),
            arguments: Vec::new(),
            next_vreg: 0,
            next_basic_block: 1,
        };
        assert(r.scopes() =~= Seq::<Seq<String>>::empty());
        r
    }

    /// The next free register, which is then taken.
    pub fn alloc_vreg(&mut self) -> (r: usize)
        requires
            old(self).next_vreg < usize::MAX,
        ensures
            r == old(self).next_vreg,
            final(self).next_vreg == r + 1,
            final(self).next_basic_block == old(self).next_basic_block,
            final(self).irs == old(self).irs,
            final(self).local_variables == old(self).local_variables,
            final(self).scopes() == old(self).scopes(),
    {
        let idx = self.next_vreg;
        self.next_vreg = idx + 1;
        idx
    }

    /// A new register of type `dtype`.
    pub fn alloc_temporary(&mut self, dtype: Dtype) -> (r: Operand)
        requires
            old(self).next_vreg < usize::MAX,
        ensures
            r == Operand::Local(super::value::LocalRef { dtype, index: old(self).next_vreg }),
            final(self).next_vreg == old(self).next_vreg + 1,
            final(self).next_basic_block == old(self).next_basic_block,
            final(self).irs == old(self).irs,
            final(self).local_variables == old(self).local_variables,
            final(self).scopes() == old(self).scopes(),
    {
        let idx = self.alloc_vreg();
        Operand::local(&LocalVariable::new(dtype, idx, None))
    }

    /// The next free block label, which is then taken.
    pub fn alloc_basic_block(&mut self) -> (r: BlockLabel)
        requires
            old(self).next_basic_block < usize::MAX,
        ensures
            r == BlockLabel::BasicBlock(old(self).next_basic_block),
            final(self).next_basic_block == old(self).next_basic_block + 1,
            final(self).next_vreg == old(self).next_vreg,
            final(self).irs == old(self).irs,
            final(self).local_variables == old(self).local_variables,
            final(self).scopes() == old(self).scopes(),
    {
        let idx = self.next_basic_block;
        self.next_basic_block = idx + 1;
        BlockLabel::BasicBlock(idx)
    }

    /// The variable named `id`: a local in scope before a global; an error
    /// naming `id` when neither has that name.
    pub fn lookup_variable(&self, id: &str) -> (r: Result<Operand, Error>)
        ensures
            local_entries(self.local_variables).contains_key(id@) ==> r == Ok::<Operand, Error>(
                Operand::Local(super::value::LocalRef {
                    dtype: local_entries(self.local_variables)[id@].dtype,
                    index: local_entries(self.local_variables)[id@].index,
                }),
            ),
            !local_entries(self.local_variables).contains_key(id@) && global_entries(*self.global_variables).contains_key(id@)
                ==> (r matches Ok(o) && same_operand(o, Operand::Global(global_entries(*self.global_variables)[id@]))),
            !local_entries(self.local_variables).contains_key(id@) && !global_entries(*self.global_variables).contains_key(id@)
                ==> (r matches Err(Error::VariableNotDefined { symbol }) && symbol@ == id@),
    {
        match local_map_get(&self.local_variables, id) {
            Some(local) => Ok(Operand::local(local)),
            None => match global_map_get(self.global_variables, id) {
                Some(global) => {
                    let g = global.clone();
                    Ok(Operand::Global(g))
                },
                None => Err(Error::VariableNotDefined { symbol: id.to_string() }),
            },
        }
    }

    /// Opens a scope with no names declared yet.
    pub fn enter_scope(&mut self)
        ensures
            final(self).scopes() == old(self).scopes().push(Seq::empty()),
            final(self).local_variables == old(self).local_variables,
            final(self).irs == old(self).irs,
            final(self).next_vreg == old(self).next_vreg,
            final(self).next_basic_block == old(self).next_basic_block,
    {
        self.scope_locals.push(Vec::new());
        assert(self.scopes() =~= old(self).scopes().push(Seq::empty()));
    }

    /// Closes the innermost scope, if one is open: the locals declared in it
    /// go out of scope.
    pub fn exit_scope(&mut self)
        ensures
            old(self).scopes().len() == 0 ==> final(self).scopes() == old(self).scopes() && final(self).local_variables
                == old(self).local_variables,
            old(self).scopes().len() > 0 ==> final(self).scopes() == old(self).scopes().drop_last() && local_entries(
                final(self).local_variables,
            ) == without_keys(local_entries(old(self).local_variables), old(self).scopes().last()),
            final(self).irs == old(self).irs,
            final(self).next_vreg == old(self).next_vreg,
            final(self).next_basic_block == old(self).next_basic_block,
    {
        match self.scope_locals.pop() {
            Some(locals) => {
                proof {
                    assert(self.scopes() =~= old(self).scopes().drop_last());
                    assert(locals@ == old(self).scopes().last());
                    assert(locals@.take(0) =~= Seq::<String>::empty());
                }
                let mut k: usize = 0;
                while k < locals.len()
                    invariant
                        k <= locals@.len(),
                        local_entries(self.local_variables) == without_keys(local_entries(old(self).local_variables), locals@.take(k as int)),
                        self.scopes() == old(self).scopes().drop_last(),
                        self.irs == old(self).irs,
                        self.next_vreg == old(self).next_vreg,
                        self.next_basic_block == old(self).next_basic_block,
                    decreases locals@.len() - k,
                {
                    local_map_remove(&mut self.local_variables, &locals[k]);
                    proof {
                        assert(locals@.take(k + 1).drop_last() =~= locals@.take(k as int));
                    }
                    k += 1;
                }
                assert(locals@.take(k as int) =~= locals@);
            },
            None => {},
        }
    }

    /// Records `id` as declared in the innermost scope, if one is open.
    pub fn record_scoped_local(&mut self, id: String)
        ensures
            old(self).scopes().len() == 0 ==> final(self).scopes() == old(self).scopes(),
            old(self).scopes().len() > 0 ==> final(self).scopes() == old(self).scopes().update(
                old(self).scopes().len() - 1,
                old(self).scopes().last().push(id),
            ),
            final(self).local_variables == old(self).local_variables,
            final(self).irs == old(self).irs,
            final(self).next_vreg == old(self).next_vreg,
            final(self).next_basic_block == old(self).next_basic_block,
    {
        let n = self.scope_locals.len();
        if n > 0 {
            let mut last: Vec<String> = Vec::new();
            std::mem::swap(&mut last, &mut self.scope_locals[n - 1]);
            last.push(id);
            self.scope_locals.set(n - 1, last);
            assert(self.scopes() =~= old(self).scopes().update(n - 1, old(self).scopes().last().push(id)));
        }
    }

    /// Appends `s` to the statements.
    fn emit(&mut self, s: Stmt)
        ensures
            final(self).irs@ == old(self).irs@.push(s),
            final(self).local_variables == old(self).local_variables,
            final(self).scopes() == old(self).scopes(),
            final(self).next_vreg == old(self).next_vreg,
            final(self).next_basic_block == old(self).next_basic_block,
    {
        self.irs.push(s);
    }

    /// Appends an `alloca` of `dst`.
    pub fn emit_alloca(&mut self, dst: Operand)
        ensures
            final(self).irs@ == old(self).irs@.push(Stmt { inner: super::stmt::StmtInner::Alloca(super::stmt::AllocaStmt { dst }) }),
            final(self).local_variables == old(self).local_variables,
            final(self).scopes() == old(self).scopes(),
            final(self).next_vreg == old(self).next_vreg,
            final(self).next_basic_block == old(self).next_basic_block,
    {
        self.emit(Stmt::as_alloca(dst));
    }

    /// Appends a load of `ptr` into `dst`.
    pub fn emit_load(&mut self, dst: Operand, ptr: Operand)
        ensures
            final(self).irs@ == old(self).irs@.push(Stmt { inner: super::stmt::StmtInner::Load(super::stmt::LoadStmt { dst, ptr }) }),
            final(self).local_variables == old(self).local_variables,
            final(self).scopes() == old(self).scopes(),
            final(self).next_vreg == old(self).next_vreg,
            final(self).next_basic_block == old(self).next_basic_block,
    {
        self.emit(Stmt::as_load(dst, ptr));
    }

    /// Appends a store of `src` through `ptr`.
    pub fn emit_store(&mut self, src: Operand, ptr: Operand)
        ensures
            final(self).irs@ == old(self).irs@.push(Stmt { inner: super::stmt::StmtInner::Store(super::stmt::StoreStmt { src, ptr }) }),
            final(self).local_variables == old(self).local_variables,
            final(self).scopes() == old(self).scopes(),
            final(self).next_vreg == old(self).next_vreg,
            final(self).next_basic_block == old(self).next_basic_block,
    {
        self.emit(Stmt::as_store(src, ptr));
    }

    /// Appends an address computation of `new_ptr` from `base_ptr` and `index`.
    pub fn emit_gep(&mut self, new_ptr: Operand, base_ptr: Operand, index: Operand)
        ensures
            final(self).irs@ == old(self).irs@.push(
                Stmt { inner: super::stmt::StmtInner::Gep(super::stmt::GepStmt { new_ptr, base_ptr, index }) },
            ),
            final(self).local_variables == old(self).local_variables,
            final(self).scopes() == old(self).scopes(),
            final(self).next_vreg == old(self).next_vreg,
            final(self).next_basic_block == old(self).next_basic_block,
    {
        self.emit(Stmt::as_gep(new_ptr, base_ptr, index));
    }

    /// Appends an arithmetic operation.
    pub fn emit_biop(&mut self, op: ArithBinOp, left: Operand, right: Operand, dst: Operand)
        ensures
            final(self).irs@ == old(self).irs@.push(
                Stmt { inner: super::stmt::StmtInner::BiOp(super::stmt::BiOpStmt { op, left, right, dst }) },
            ),
            final(self).local_variables == old(self).local_variables,
            final(self).scopes() == old(self).scopes(),
            final(self).next_vreg == old(self).next_vreg,
            final(self).next_basic_block == old(self).next_basic_block,
    {
        self.emit(Stmt::as_biop(op, left, right, dst));
    }

    /// Appends a comparison.
    pub fn emit_cmp(&mut self, op: CmpPredicate, left: Operand, right: Operand, dst: Operand)
        ensures
            final(self).irs@ == old(self).irs@.push(
                Stmt { inner: super::stmt::StmtInner::Cmp(super::stmt::CmpStmt { op, left, right, dst }) },
            ),
            final(self).local_variables == old(self).local_variables,
            final(self).scopes() == old(self).scopes(),
            final(self).next_vreg == old(self).next_vreg,
            final(self).next_basic_block == old(self).next_basic_block,
    {
        self.emit(Stmt::as_cmp(op, left, right, dst));
    }

    /// Appends a conditional branch.
    pub fn emit_cjump(&mut self, cond: Operand, true_label: BlockLabel, false_label: BlockLabel)
        ensures
            final(self).irs@ == old(self).irs@.push(
                Stmt { inner: super::stmt::StmtInner::CJump(super::stmt::CJumpStmt { cond, true_label, false_label }) },
            ),
            final(self).local_variables == old(self).local_variables,
            final(self).scopes() == old(self).scopes(),
            final(self).next_vreg == old(self).next_vreg,
            final(self).next_basic_block == old(self).next_basic_block,
    {
        self.emit(Stmt::as_cjump(cond, true_label, false_label));
    }

    /// Appends a jump.
    pub fn emit_jump(&mut self, target: BlockLabel)
        ensures
            final(self).irs@ == old(self).irs@.push(Stmt { inner: super::stmt::StmtInner::Jump(super::stmt::JumpStmt { target }) }),
            final(self).local_variables == old(self).local_variables,
            final(self).scopes() == old(self).scopes(),
            final(self).next_vreg == old(self).next_vreg,
            final(self).next_basic_block == old(self).next_basic_block,
    {
        self.emit(Stmt::as_jump(target));
    }

    /// Appends a label.
    pub fn emit_label(&mut self, label: BlockLabel)
        ensures
            final(self).irs@ == old(self).irs@.push(Stmt { inner: super::stmt::StmtInner::Label(super::stmt::LabelStmt { label }) }),
            final(self).local_variables == old(self).local_variables,
            final(self).scopes() == old(self).scopes(),
            final(self).next_vreg == old(self).next_vreg,
            final(self).next_basic_block == old(self).next_basic_block,
    {
        self.emit(Stmt::as_label(label));
    }

    /// Appends a call.
    pub fn emit_call(&mut self, func_name: String, result: Option<Operand>, args: Vec<Operand>)
        ensures
            final(self).irs@ == old(self).irs@.push(
                Stmt { inner: super::stmt::StmtInner::Call(super::stmt::CallStmt { func_name, result, args }) },
            ),
            final(self).local_variables == old(self).local_variables,
            final(self).scopes() == old(self).scopes(),
            final(self).next_vreg == old(self).next_vreg,
            final(self).next_basic_block == old(self).next_basic_block,
    {
        self.emit(Stmt::as_call(func_name, result, args));
    }

    /// Appends a return.
    pub fn emit_return(&mut self, val: Option<Operand>)
        ensures
            final(self).irs@ == old(self).irs@.push(Stmt { inner: super::stmt::StmtInner::Return(super::stmt::ReturnStmt { val }) }),
            final(self).local_variables == old(self).local_variables,
            final(self).scopes() == old(self).scopes(),
            final(self).next_vreg == old(self).next_vreg,
            final(self).next_basic_block == old(self).next_basic_block,
    {
        self.emit(Stmt::as_return(val));
    }
}

} // verus!
