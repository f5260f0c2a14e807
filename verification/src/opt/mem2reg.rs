use vstd::prelude::*;
use crate::common::graph::{least_live_out, models, BackwardLiveness, Graph};
use crate::ir::function::{BasicBlock, BlockLabel, Function};
use crate::ir::value::{lemma_same_operand_props, same_operand, Integer, LocalRef, LocalVariable, Operand};
use crate::ir::stmt::{
    clone_incomings, same_incomings, same_opt_operand, stmt_roles, AllocaStmt, BiOpStmt, CJumpStmt, CallStmt, CmpStmt, GepStmt, JumpStmt, LabelStmt,
    LoadStmt, OperandRole, PhiStmt, ReturnStmt, Stmt, StmtInner, StoreStmt,
};
use crate::ir::types::Dtype;
use crate::opt::cfg::{block_succs, jumps_are_resolved, jumps_resolved, Cfg};
use crate::opt::phi_elimination::{checked_stmt_total, lemma_stmt_count_take, stmt_count};
use crate::common::graph::{count_in, pred_list};
use crate::opt::dominator::{count_true, dom_greatest, dom_solution, has_idom, in_frontier, is_idom_choice, reach_closed, reach_least, lemma_count_true_bound, lemma_count_true_none, lemma_count_true_set, DominatorInfo};

verus! {

broadcast use vstd::seq_lib::group_seq_properties;

// ---------------------------------------------------------------------------
// Which allocas can be promoted
// ---------------------------------------------------------------------------

/// The register of an `alloca` of an `i32` slot, if the statement is one.
pub open spec fn i32_alloca_vreg(s: Stmt) -> Option<usize> {
    match s.inner {
        StmtInner::Alloca(a) => match a.dst.spec_vreg() {
            Some(v) => if a.dst.spec_dtype() == (Dtype::Pointer { pointee: Box::new(Dtype::I32) }) {
                Some(v)
            } else {
                None
            },
            None => None,
        },
        _ => None,
    }
}

/// Register `v` is allocated as an `i32` slot somewhere in `blocks`.
pub open spec fn is_candidate(blocks: Seq<BasicBlock>, v: usize) -> bool {
    exists|b: int, j: int|
        0 <= b < blocks.len() && 0 <= j < blocks[b].stmts@.len() && #[trigger] i32_alloca_vreg(
            blocks[b].stmts@[j],
        ) == Some(v)
}

/// The operands of a list of statements, flattened, as (register, role) pairs.
pub open spec fn block_ops(stmts: Seq<Stmt>) -> Seq<(Option<usize>, OperandRole)>
    decreases stmts.len(),
{
    if stmts.len() == 0 {
        Seq::empty()
    } else {
        block_ops(stmts.drop_last()) + stmt_roles(stmts.last())
    }
}

/// Some operand of `ops` names register `x` in role `role`.
pub open spec fn has_op(ops: Seq<(Option<usize>, OperandRole)>, x: usize, role: OperandRole) -> bool {
    exists|i: int| 0 <= i < ops.len() && #[trigger] ops[i] == (Some(x), role)
}

/// Register `x` is loaded through before anything is stored through it.
pub open spec fn load_before_store(ops: Seq<(Option<usize>, OperandRole)>, x: usize) -> bool {
    exists|i: int|
        0 <= i < ops.len() && #[trigger] ops[i] == (Some(x), OperandRole::LoadPtr) && !has_op(
            ops.take(i),
            x,
            OperandRole::StorePtr,
        )
}

/// How one promotion candidate is used across the blocks.
pub struct VarUsage {
    pub var: usize,
    pub def_blocks: Vec<bool>,
    pub load_before_store_blocks: Vec<bool>,
    pub has_store: bool,
    pub has_load: bool,
    pub invalid: bool,
}

/// `u` records the uses of its register in `blocks`: the blocks that store
/// through it, the blocks that load through it before any store, whether it
/// is stored through or loaded through at all, and whether its value is used
/// otherwise.
pub open spec fn usage_of(u: VarUsage, blocks: Seq<BasicBlock>) -> bool {
    let n = blocks.len();
    let x = u.var;
    &&& u.def_blocks@.len() == n
    &&& u.load_before_store_blocks@.len() == n
    &&& forall|b: int| 0 <= b < n ==> #[trigger] u.def_blocks@[b] == has_op(block_ops(blocks[b].stmts@), x, OperandRole::StorePtr)
    &&& forall|b: int| 0 <= b < n ==> #[trigger] u.load_before_store_blocks@[b] == load_before_store(block_ops(blocks[b].stmts@), x)
    &&& u.has_store == exists|b: int| 0 <= b < n && has_op(block_ops(#[trigger] blocks[b].stmts@), x, OperandRole::StorePtr)
    &&& u.has_load == exists|b: int| 0 <= b < n && has_op(block_ops(#[trigger] blocks[b].stmts@), x, OperandRole::LoadPtr)
    &&& u.invalid == exists|b: int| 0 <= b < n && has_op(block_ops(#[trigger] blocks[b].stmts@), x, OperandRole::Use)
}

proof fn lemma_block_ops_step(stmts: Seq<Stmt>, j: int)
    requires
        0 <= j < stmts.len(),
    ensures
        block_ops(stmts.take(j + 1)) == block_ops(stmts.take(j)) + stmt_roles(stmts[j]),
{
    assert(stmts.take(j + 1).drop_last() =~= stmts.take(j));
}

proof fn lemma_has_op_push(ops: Seq<(Option<usize>, OperandRole)>, e: (Option<usize>, OperandRole), x: usize, role: OperandRole)
    ensures
        has_op(ops.push(e), x, role) == (has_op(ops, x, role) || e == (Some(x), role)),
{
    let p = ops.push(e);
    if has_op(ops, x, role) {
        let i = choose|i: int| 0 <= i < ops.len() && #[trigger] ops[i] == (Some(x), role);
        assert(p[i] == ops[i]);
    }
    if e == (Some(x), role) {
        assert(p[ops.len() as int] == e);
    }
    if has_op(p, x, role) {
        let i = choose|i: int| 0 <= i < p.len() && #[trigger] p[i] == (Some(x), role);
        if i < ops.len() {
            assert(ops[i] == p[i]);
        }
    }
}

proof fn lemma_lbs_push(ops: Seq<(Option<usize>, OperandRole)>, e: (Option<usize>, OperandRole), x: usize)
    ensures
        load_before_store(ops.push(e), x) == (load_before_store(ops, x) || (e == (Some(x), OperandRole::LoadPtr)
            && !has_op(ops, x, OperandRole::StorePtr))),
{
    let p = ops.push(e);
    assert(p.take(ops.len() as int) =~= ops);
    if e == (Some(x), OperandRole::LoadPtr) && !has_op(ops, x, OperandRole::StorePtr) {
        assert(p[ops.len() as int] == e);
    }
    if load_before_store(ops, x) {
        let i = choose|i: int|
            0 <= i < ops.len() && #[trigger] ops[i] == (Some(x), OperandRole::LoadPtr) && !has_op(
                ops.take(i),
                x,
                OperandRole::StorePtr,
            );
        assert(p[i] == ops[i]);
        assert(p.take(i) =~= ops.take(i));
    }
    if load_before_store(p, x) {
        let i = choose|i: int|
            0 <= i < p.len() && #[trigger] p[i] == (Some(x), OperandRole::LoadPtr) && !has_op(
                p.take(i),
                x,
                OperandRole::StorePtr,
            );
        if i < ops.len() {
            assert(p[i] == ops[i]);
            assert(p.take(i) =~= ops.take(i));
        }
    }
}

/// The operands of a block's statements, flattened.
fn flat_ops(stmts: &Vec<Stmt>) -> (r: Vec<(Option<usize>, OperandRole)>)
    ensures
        r@ == block_ops(stmts@),
{
    let mut r: Vec<(Option<usize>, OperandRole)> = Vec::new();
    let mut j: usize = 0;
    while j < stmts.len()
        invariant
            j <= stmts@.len(),
            r@ == block_ops(stmts@.take(j as int)),
        decreases stmts@.len() - j,
    {
        let roles = stmts[j].operand_roles();
        let mut k: usize = 0;
        let ghost head = r@;
        while k < roles.len()
            invariant
                k <= roles@.len(),
                r@ == head + roles@.take(k as int),
            decreases roles@.len() - k,
        {
            r.push(roles[k]);
            k += 1;
            assert(r@ =~= head + roles@.take(k as int));
        }
        proof {
            assert(roles@.take(k as int) =~= roles@);
            lemma_block_ops_step(stmts@, j as int);
        }
        j += 1;
    }
    assert(stmts@.take(j as int) =~= stmts@);
    r
}

/// The registers allocated as `i32` slots in `blocks`, each once, in order of appearance.
pub fn collect_candidates(blocks: &[BasicBlock]) -> (r: Vec<usize>)
    ensures
        r@.no_duplicates(),
        r@.len() <= stmt_count(blocks@),
        forall|v: usize| r@.contains(v) <==> is_candidate(blocks@, v),
{
    let mut r: Vec<usize> = Vec::new();
    let mut b: usize = 0;
    while b < blocks.len()
        invariant
            b <= blocks@.len(),
            r@.no_duplicates(),
            r@.len() <= stmt_count(blocks@.take(b as int)),
            forall|v: usize| r@.contains(v) <==> exists|c: int, j: int|
                0 <= c < b && 0 <= j < blocks@[c].stmts@.len() && #[trigger] i32_alloca_vreg(
                    blocks@[c].stmts@[j],
                ) == Some(v),
        decreases blocks@.len() - b,
    {
        let stmts = &blocks[b].stmts;
        let mut j: usize = 0;
        while j < stmts.len()
            invariant
                b < blocks@.len(),
                stmts@ == blocks@[b as int].stmts@,
                j <= stmts@.len(),
                r@.no_duplicates(),
                r@.len() <= stmt_count(blocks@.take(b as int)) + j,
                forall|v: usize| r@.contains(v) <==> (exists|c: int, i: int|
                    0 <= c < b && 0 <= i < blocks@[c].stmts@.len() && #[trigger] i32_alloca_vreg(
                        blocks@[c].stmts@[i],
                    ) == Some(v)) || (exists|i: int| 0 <= i < j && #[trigger] i32_alloca_vreg(stmts@[i]) == Some(v)),
            decreases stmts@.len() - j,
        {
            let mut found: Option<usize> = None;
            if let StmtInner::Alloca(a) = &stmts[j].inner {
                if let Some(idx) = a.dst.vreg_index() {
                    if let Dtype::Pointer { pointee } = a.dst.dtype() {
                        if let Dtype::I32 = &**pointee {
                            found = Some(idx);
                        }
                    }
                }
            }
            assert(found == i32_alloca_vreg(stmts@[j as int]));
            if let Some(idx) = found {
                let mut seen = false;
                let mut k: usize = 0;
                while k < r.len()
                    invariant
                        k <= r@.len(),
                        seen == r@.take(k as int).contains(idx),
                    decreases r@.len() - k,
                {
                    assert(r@.take(k as int + 1) =~= r@.take(k as int).push(r@[k as int]));
                    if r[k] == idx {
                        seen = true;
                    }
                    k += 1;
                }
                assert(r@.take(k as int) =~= r@);
                if !seen {
                    r.push(idx);
                }
            }
            proof {
                let jj = j as int;
                assert forall|v: usize| r@.contains(v) <==> (exists|c: int, i: int|
                    0 <= c < b && 0 <= i < blocks@[c].stmts@.len() && #[trigger] i32_alloca_vreg(
                        blocks@[c].stmts@[i],
                    ) == Some(v)) || (exists|i: int| 0 <= i < jj + 1 && #[trigger] i32_alloca_vreg(stmts@[i]) == Some(v)) by {
                    if i32_alloca_vreg(stmts@[jj]) == Some(v) {
                        assert(r@.contains(v));
                    }
                }
            }
            j += 1;
        }
        proof {
            lemma_stmt_count_take(blocks@, b as int);
            assert forall|v: usize| r@.contains(v) <==> exists|c: int, i: int|
                0 <= c < b + 1 && 0 <= i < blocks@[c].stmts@.len() && #[trigger] i32_alloca_vreg(
                    blocks@[c].stmts@[i],
                ) == Some(v) by {
                if exists|i: int| 0 <= i < stmts@.len() && #[trigger] i32_alloca_vreg(stmts@[i]) == Some(v) {
                    let i = choose|i: int| 0 <= i < stmts@.len() && #[trigger] i32_alloca_vreg(stmts@[i]) == Some(v);
                    assert(i32_alloca_vreg(blocks@[b as int].stmts@[i]) == Some(v));
                }
                if exists|c: int, i: int|
                    0 <= c < b + 1 && 0 <= i < blocks@[c].stmts@.len() && #[trigger] i32_alloca_vreg(
                        blocks@[c].stmts@[i],
                    ) == Some(v) {
                    let (c, i) = choose|c: int, i: int|
                        0 <= c < b + 1 && 0 <= i < blocks@[c].stmts@.len() && #[trigger] i32_alloca_vreg(
                            blocks@[c].stmts@[i],
                        ) == Some(v);
                    if c == b as int {
                        assert(i32_alloca_vreg(stmts@[i]) == Some(v));
                    }
                }
            }
        }
        b += 1;
    }
    assert(blocks@.take(b as int) =~= blocks@);
    r
}

/// How register `x` is used in `blocks`.
fn usage_for(blocks: &[BasicBlock], x: usize) -> (r: VarUsage)
    ensures
        r.var == x,
        usage_of(r, blocks@),
{
    let mut def_blocks: Vec<bool> = Vec::new();
    let mut lbs_blocks: Vec<bool> = Vec::new();
    let mut has_store = false;
    let mut has_load = false;
    let mut invalid = false;
    let mut b: usize = 0;
    while b < blocks.len()
        invariant
            b <= blocks@.len(),
            def_blocks@.len() == b,
            lbs_blocks@.len() == b,
            forall|c: int| 0 <= c < b ==> #[trigger] def_blocks@[c] == has_op(block_ops(blocks@[c].stmts@), x, OperandRole::StorePtr),
            forall|c: int| 0 <= c < b ==> #[trigger] lbs_blocks@[c] == load_before_store(block_ops(blocks@[c].stmts@), x),
            has_store == exists|c: int| 0 <= c < b && has_op(block_ops(#[trigger] blocks@[c].stmts@), x, OperandRole::StorePtr),
            has_load == exists|c: int| 0 <= c < b && has_op(block_ops(#[trigger] blocks@[c].stmts@), x, OperandRole::LoadPtr),
            invalid == exists|c: int| 0 <= c < b && has_op(block_ops(#[trigger] blocks@[c].stmts@), x, OperandRole::Use),
        decreases blocks@.len() - b,
    {
        let ops = flat_ops(&blocks[b].stmts);
        let mut store_seen = false;
        let mut lbs = false;
        let mut load_b = false;
        let mut use_b = false;
        let mut k: usize = 0;
        while k < ops.len()
            invariant
                k <= ops@.len(),
                store_seen == has_op(ops@.take(k as int), x, OperandRole::StorePtr),
                lbs == load_before_store(ops@.take(k as int), x),
                load_b == has_op(ops@.take(k as int), x, OperandRole::LoadPtr),
                use_b == has_op(ops@.take(k as int), x, OperandRole::Use),
            decreases ops@.len() - k,
        {
            let e = ops[k];
            proof {
                assert(ops@.take(k as int + 1) =~= ops@.take(k as int).push(e));
                lemma_has_op_push(ops@.take(k as int), e, x, OperandRole::StorePtr);
                lemma_has_op_push(ops@.take(k as int), e, x, OperandRole::LoadPtr);
                lemma_has_op_push(ops@.take(k as int), e, x, OperandRole::Use);
                lemma_lbs_push(ops@.take(k as int), e, x);
            }
            if e.0 == Some(x) {
                match e.1 {
                    OperandRole::LoadPtr => {
                        if !store_seen {
                            lbs = true;
                        }
                        load_b = true;
                    },
                    OperandRole::StorePtr => {
                        store_seen = true;
                    },
                    OperandRole::Def => {},
                    OperandRole::Use => {
                        use_b = true;
                    },
                }
            }
            k += 1;
        }
        proof {
            assert(ops@.take(k as int) =~= ops@);
        }
        def_blocks.push(store_seen);
        lbs_blocks.push(lbs);
        has_store = has_store || store_seen;
        has_load = has_load || load_b;
        invalid = invalid || use_b;
        proof {
            let bb = b as int;
            assert(has_store == exists|c: int| 0 <= c < bb + 1 && has_op(block_ops(#[trigger] blocks@[c].stmts@), x, OperandRole::StorePtr));
            assert(has_load == exists|c: int| 0 <= c < bb + 1 && has_op(block_ops(#[trigger] blocks@[c].stmts@), x, OperandRole::LoadPtr));
            assert(invalid == exists|c: int| 0 <= c < bb + 1 && has_op(block_ops(#[trigger] blocks@[c].stmts@), x, OperandRole::Use));
        }
        b += 1;
    }
    VarUsage { var: x, def_blocks, load_before_store_blocks: lbs_blocks, has_store, has_load, invalid }
}

/// The usage of each candidate register in `blocks`, in the order of `candidates`.
pub fn analyze_usage(blocks: &[BasicBlock], candidates: &Vec<usize>) -> (r: Vec<VarUsage>)
    ensures
        r@.len() == candidates@.len(),
        forall|i: int| 0 <= i < r@.len() ==> (#[trigger] r@[i]).var == candidates@[i] && usage_of(r@[i], blocks@),
{
    let mut r: Vec<VarUsage> = Vec::new();
    let mut i: usize = 0;
    while i < candidates.len()
        invariant
            i <= candidates@.len(),
            r@.len() == i,
            forall|j: int| 0 <= j < i ==> (#[trigger] r@[j]).var == candidates@[j] && usage_of(r@[j], blocks@),
        decreases candidates@.len() - i,
    {
        r.push(usage_for(blocks, candidates[i]));
        i += 1;
    }
    r
}

/// Above this many single-definition candidates, none of them is promoted:
/// each stays live from its one store to its last load, and that many long
/// live ranges make the interference graph too large.
pub const SINGLE_DEF_LIMIT: usize = 256;

/// Block `b` is strictly dominated by a block that stores through the register of `u`.
pub open spec fn dominated_by_def(u: VarUsage, rows: Seq<Seq<bool>>, b: int) -> bool {
    exists|d: int| 0 <= d < u.def_blocks@.len() && d != b && u.def_blocks@[d] && #[trigger] rows[b][d]
}

/// The register of `u` can become SSA values: it is only loaded and stored
/// through, stored at least once, and every block that loads before storing
/// is strictly dominated by a storing block.
pub open spec fn promotable(u: VarUsage, rows: Seq<Seq<bool>>) -> bool {
    &&& !u.invalid
    &&& u.has_store
    &&& forall|b: int|
        0 <= b < u.load_before_store_blocks@.len() && #[trigger] u.load_before_store_blocks@[b] ==> dominated_by_def(u, rows, b)
}

/// At most one block stores through the register of `u`.
pub open spec fn single_def(u: VarUsage) -> bool {
    count_true(u.def_blocks@) <= 1
}

/// How many of the first `k` usages are promotable with a single definition.
pub open spec fn single_count(us: Seq<VarUsage>, rows: Seq<Seq<bool>>, k: int) -> nat
    decreases k,
{
    if k <= 0 {
        0
    } else {
        single_count(us, rows, k - 1) + if promotable(us[k - 1], rows) && single_def(us[k - 1]) {
            1nat
        } else {
            0nat
        }
    }
}

/// Which usages are promoted: the promotable ones, leaving out those with a
/// single definition when there are more of those than the limit.
pub open spec fn promoted_flag(us: Seq<VarUsage>, rows: Seq<Seq<bool>>, i: int) -> bool {
    promotable(us[i], rows) && (single_count(us, rows, us.len() as int) <= SINGLE_DEF_LIMIT || !single_def(us[i]))
}

impl VarUsage {
    /// Whether at most one block stores through the register.
    fn def_count_at_most_one(&self) -> (r: bool)
        ensures
            r == (count_true(self.def_blocks@) <= 1),
    {
        let mut c: usize = 0;
        let mut i: usize = 0;
        while i < self.def_blocks.len()
            invariant
                i <= self.def_blocks@.len(),
                c == count_true(self.def_blocks@.take(i as int)),
                c <= i,
            decreases self.def_blocks@.len() - i,
        {
            assert(self.def_blocks@.take(i as int + 1).drop_last() =~= self.def_blocks@.take(i as int));
            if self.def_blocks[i] {
                c += 1;
            }
            i += 1;
        }
        assert(self.def_blocks@.take(i as int) =~= self.def_blocks@);
        c <= 1
    }
}

/// Decides `promotable` for one usage.
fn is_promotable(u: &VarUsage, dom_info: &DominatorInfo) -> (r: bool)
    requires
        dom_info.wf(),
        u.def_blocks@.len() == dom_info.spec_len(),
        u.load_before_store_blocks@.len() == dom_info.spec_len(),
    ensures
        r == promotable(*u, dom_info.spec_rows()),
{
    if u.invalid || !u.has_store {
        return false;
    }
    let n = u.load_before_store_blocks.len();
    let mut b: usize = 0;
    while b < n
        invariant
            b <= n,
            dom_info.wf(),
            n == dom_info.spec_len(),
            u.def_blocks@.len() == n,
            u.load_before_store_blocks@.len() == n,
            forall|c: int| 0 <= c < b && #[trigger] u.load_before_store_blocks@[c] ==> dominated_by_def(*u, dom_info.spec_rows(), c),
        decreases n - b,
    {
        if u.load_before_store_blocks[b] {
            let mut found = false;
            let mut d: usize = 0;
            while d < n
                invariant
                    d <= n,
                    b < n,
                    dom_info.wf(),
                    n == dom_info.spec_len(),
                    u.def_blocks@.len() == n,
                    found == exists|x: int| 0 <= x < d && x != b && u.def_blocks@[x] && #[trigger] dom_info.spec_rows()[b as int][x],
                decreases n - d,
            {
                if d != b && u.def_blocks[d] && dom_info.dominates(d, b) {
                    found = true;
                }
                d += 1;
            }
            if !found {
                return false;
            }
        }
        b += 1;
    }
    true
}

/// The promoted flag of each usage.
pub fn promotable_vars(usage: &Vec<VarUsage>, dom_info: &DominatorInfo) -> (r: Vec<bool>)
    requires
        dom_info.wf(),
        forall|i: int|
            0 <= i < usage@.len() ==> (#[trigger] usage@[i]).def_blocks@.len() == dom_info.spec_len()
                && usage@[i].load_before_store_blocks@.len() == dom_info.spec_len(),
    ensures
        r@.len() == usage@.len(),
        forall|i: int| 0 <= i < r@.len() ==> #[trigger] r@[i] == promoted_flag(usage@, dom_info.spec_rows(), i),
{
    let ghost rows = dom_info.spec_rows();
    let mut flags: Vec<bool> = Vec::new();
    let mut singles: Vec<bool> = Vec::new();
    let mut count: usize = 0;
    let mut i: usize = 0;
    while i < usage.len()
        invariant
            i <= usage@.len(),
            dom_info.wf(),
            rows == dom_info.spec_rows(),
            forall|j: int|
                0 <= j < usage@.len() ==> (#[trigger] usage@[j]).def_blocks@.len() == dom_info.spec_len()
                    && usage@[j].load_before_store_blocks@.len() == dom_info.spec_len(),
            flags@.len() == i,
            singles@.len() == i,
            forall|j: int| 0 <= j < i ==> #[trigger] flags@[j] == promotable(usage@[j], rows),
            forall|j: int| 0 <= j < i ==> #[trigger] singles@[j] == single_def(usage@[j]),
            count == single_count(usage@, rows, i as int),
            count <= i,
        decreases usage@.len() - i,
    {
        let p = is_promotable(&usage[i], dom_info);
        let one = usage[i].def_count_at_most_one();
        flags.push(p);
        singles.push(one);
        if p && one {
            count += 1;
        }
        i += 1;
    }
    let keep_singles = count <= SINGLE_DEF_LIMIT;
    let mut r: Vec<bool> = Vec::new();
    let mut i: usize = 0;
    while i < flags.len()
        invariant
            i <= flags@.len(),
            flags@.len() == usage@.len(),
            singles@.len() == usage@.len(),
            forall|j: int| 0 <= j < flags@.len() ==> #[trigger] flags@[j] == promotable(usage@[j], rows),
            forall|j: int| 0 <= j < flags@.len() ==> #[trigger] singles@[j] == single_def(usage@[j]),
            keep_singles == (single_count(usage@, rows, usage@.len() as int) <= SINGLE_DEF_LIMIT),
            r@.len() == i,
            forall|j: int| 0 <= j < i ==> #[trigger] r@[j] == promoted_flag(usage@, rows, j),
        decreases flags@.len() - i,
    {
        r.push(flags[i] && (keep_singles || !singles[i]));
        i += 1;
    }
    r
}

// ---------------------------------------------------------------------------
// PHI placement
// ---------------------------------------------------------------------------

/// A PHI to be inserted for a promoted register: the register it replaces,
/// the new value it defines, and its incoming values so far.
pub struct PhiInfo {
    pub var: usize,
    pub dst: Operand,
    pub incomings: Vec<(BlockLabel, Operand)>,
}

/// The PHIs to be inserted at the start of each block.
pub struct PhiPlacement {
    nodes: Vec<Vec<PhiInfo>>,
}

/// Some PHI in `phis` is for register `var`.
pub open spec fn has_phi_for(phis: Seq<PhiInfo>, var: usize) -> bool {
    exists|k: int| 0 <= k < phis.len() && (#[trigger] phis[k]).var == var
}

impl PhiPlacement {
    /// The PHIs of each block.
    pub closed spec fn spec_nodes(&self) -> Seq<Seq<PhiInfo>> {
        self.nodes@.map_values(|v: Vec<PhiInfo>| v@)
    }

    /// No PHI anywhere yet, for `num_blocks` blocks.
    pub fn new(num_blocks: usize) -> (r: Self)
        ensures
            r.spec_nodes().len() == num_blocks,
            forall|b: int| 0 <= b < num_blocks ==> (#[trigger] r.spec_nodes()[b]).len() == 0,
    {
        let mut nodes: Vec<Vec<PhiInfo>> = Vec::new();
        let mut i: usize = 0;
        while i < num_blocks
            invariant
                i <= num_blocks,
                nodes@.len() == i,
                forall|b: int| 0 <= b < i ==> (#[trigger] nodes@[b])@.len() == 0,
            decreases num_blocks - i,
        {
            nodes.push(Vec::new());
            i += 1;
        }
        let r = PhiPlacement { nodes };
        assert forall|b: int| 0 <= b < num_blocks implies (#[trigger] r.spec_nodes()[b]).len() == 0 by {
            assert(r.spec_nodes()[b] == nodes@[b]@);
        }
        r
    }

    /// Adds a PHI for `var`, defining `dst`, at the end of the PHIs of `block`.
    pub fn insert_phi(&mut self, block: usize, var: usize, dst: Operand)
        requires
            block < old(self).spec_nodes().len(),
        ensures
            final(self).spec_nodes().len() == old(self).spec_nodes().len(),
            forall|b: int| 0 <= b < old(self).spec_nodes().len() && b != block ==> #[trigger] final(self).spec_nodes()[b] == old(self).spec_nodes()[b],
            final(self).spec_nodes()[block as int].drop_last() == old(self).spec_nodes()[block as int],
            final(self).spec_nodes()[block as int].len() == old(self).spec_nodes()[block as int].len() + 1,
            final(self).spec_nodes()[block as int].last().var == var,
            final(self).spec_nodes()[block as int].last().dst == dst,
            final(self).spec_nodes()[block as int].last().incomings@.len() == 0,
    {
        let ghost before = self.spec_nodes();
        let phi = PhiInfo { var, dst, incomings: Vec::new() };
        let mut row: Vec<PhiInfo> = Vec::new();
        std::mem::swap(&mut row, &mut self.nodes[block]);
        assert(row@ == before[block as int]);
        row.push(phi);
        let ghost pushed = row@;
        self.nodes.set(block, row);
        assert(self.spec_nodes() =~= before.update(block as int, pushed));
    }

    /// Whether `block` has a PHI for `var`.
    pub fn has_phi(&self, block: usize, var: usize) -> (r: bool)
        requires
            block < self.spec_nodes().len(),
        ensures
            r == has_phi_for(self.spec_nodes()[block as int], var),
    {
        let row = &self.nodes[block];
        assert(row@ == self.spec_nodes()[block as int]);
        let mut k: usize = 0;
        while k < row.len()
            invariant
                k <= row@.len(),
                block < self.spec_nodes().len(),
                row@ == self.spec_nodes()[block as int],
                forall|j: int| 0 <= j < k ==> (#[trigger] row@[j]).var != var,
            decreases row@.len() - k,
        {
            if row[k].var == var {
                return true;
            }
            k += 1;
        }
        false
    }

    /// The PHIs of `block`.
    pub fn phis_at(&self, block: usize) -> (r: &[PhiInfo])
        requires
            block < self.spec_nodes().len(),
        ensures
            r@ == self.spec_nodes()[block as int],
    {
        self.nodes[block].as_slice()
    }
}

/// Whether the register of `u` is live on entry to each block: loaded there
/// before any store, or live on exit and not stored there (the least
/// solution of the liveness equations).
pub open spec fn live_in_flags(u: VarUsage, succs: Seq<Seq<usize>>) -> Seq<bool> {
    let out = least_live_out(models(u.load_before_store_blocks@), models(u.def_blocks@), succs);
    Seq::new(
        succs.len(),
        |y: int| u.load_before_store_blocks@[y] || (out[y].contains(0usize) && !u.def_blocks@[y]),
    )
}

/// The blocks that store through the register of `u`, or got a PHI for it.
pub open spec fn def_or_phi(u: VarUsage, nodes: Seq<Seq<PhiInfo>>, b: int) -> bool {
    u.def_blocks@[b] || has_phi_for(nodes[b], u.var)
}

/// The PHIs for the register of `u` sit where it is live and where the
/// dominance frontier of a defining block reaches, and every block that is in
/// the frontier of a definition (a store or a PHI) and where the register is
/// live has one.
pub open spec fn phis_placed(u: VarUsage, nodes: Seq<Seq<PhiInfo>>, live: Seq<bool>, dom: DominatorInfo) -> bool {
    let n = nodes.len();
    &&& forall|y: int| 0 <= y < n && #[trigger] has_phi_for(nodes[y], u.var) ==> live[y] && exists|b: int|
        0 <= b < n && def_or_phi(u, nodes, b) && #[trigger] dom.spec_frontier()[b].contains(y as usize)
    &&& forall|b: int, y: int|
        0 <= b < n && 0 <= y < n && def_or_phi(u, nodes, b) && #[trigger] dom.spec_frontier()[b].contains(
            y as usize,
        ) && live[y] ==> has_phi_for(nodes[y], u.var)
}

/// The new PHI of block `b` for register `var`, if `after` adds one to `before`:
/// it comes last, has no incoming value yet, and defines the `i32` register `idx`.
pub open spec fn added_phi(before: Seq<PhiInfo>, after: Seq<PhiInfo>, var: usize, idx: usize) -> bool {
    &&& after.len() == before.len() + 1
    &&& after.drop_last() == before
    &&& after.last().var == var
    &&& after.last().incomings@.len() == 0
    &&& after.last().dst == Operand::Local(LocalRef { dtype: Dtype::I32, index: idx })
}

/// The bool flags that the liveness analysis computed for `u` are its live-in flags.
proof fn lemma_live_flags(u: VarUsage, live_in: Seq<bool>, live_out: Seq<bool>, succs: Seq<Seq<usize>>)
    requires
        u.def_blocks@.len() == succs.len(),
        u.load_before_store_blocks@.len() == succs.len(),
        crate::common::graph::solves_backward(
            models(live_in),
            models(live_out),
            models(u.load_before_store_blocks@),
            models(u.def_blocks@),
            succs,
        ),
        models(live_out) == least_live_out(models(u.load_before_store_blocks@), models(u.def_blocks@), succs),
    ensures
        live_in.len() == succs.len(),
        forall|y: int| 0 <= y < succs.len() ==> #[trigger] live_in[y] == live_in_flags(u, succs)[y],
{
    assert(models(live_in).len() == succs.len());
    assert forall|y: int| 0 <= y < succs.len() implies #[trigger] live_in[y] == live_in_flags(u, succs)[y] by {
        let gm = models(u.load_before_store_blocks@);
        let km = models(u.def_blocks@);
        assert(models(live_in)[y] == crate::common::graph::flow(gm[y], km[y], models(live_out)[y]));
        assert(live_in[y] == models(live_in)[y].contains(0usize));
        assert(gm[y].contains(0usize) == u.load_before_store_blocks@[y]);
        assert(km[y].contains(0usize) == u.def_blocks@[y]);
    }
}

/// Places the PHIs for the register of `u`: starting from its storing blocks,
/// every block in the dominance frontier of a defining block where the
/// register is live gets one PHI, which defines a fresh register numbered
/// from `next_vreg` on; each new PHI's block is then a defining block too.
fn place_var_phis(u: &VarUsage, phis: &mut PhiPlacement, graph: &Graph, dom: &DominatorInfo, next_vreg: &mut usize)
    requires
        graph.wf(),
        dom.describes(*graph),
        u.def_blocks@.len() == graph.succ_seqs().len(),
        u.load_before_store_blocks@.len() == graph.succ_seqs().len(),
        old(phis).spec_nodes().len() == graph.succ_seqs().len(),
        forall|b: int| 0 <= b < graph.succ_seqs().len() ==> !has_phi_for(#[trigger] old(phis).spec_nodes()[b], u.var),
        *old(next_vreg) + graph.succ_seqs().len() <= usize::MAX,
    ensures
        final(phis).spec_nodes().len() == old(phis).spec_nodes().len(),
        phis_placed(*u, final(phis).spec_nodes(), live_in_flags(*u, graph.succ_seqs()), *dom),
        *old(next_vreg) <= *final(next_vreg) <= *old(next_vreg) + graph.succ_seqs().len(),
        phi_count(final(phis).spec_nodes()) == phi_count(old(phis).spec_nodes()) + (*final(next_vreg) - *old(next_vreg)),
        forall|b: int|
            0 <= b < graph.succ_seqs().len() ==> #[trigger] final(phis).spec_nodes()[b] == old(phis).spec_nodes()[b]
                || exists|idx: usize|
                *old(next_vreg) <= idx < *final(next_vreg) && added_phi(
                    old(phis).spec_nodes()[b],
                    final(phis).spec_nodes()[b],
                    u.var,
                    idx,
                ),
        forall|b1: int, b2: int, i1: usize, i2: usize|
            0 <= b1 < graph.succ_seqs().len() && 0 <= b2 < graph.succ_seqs().len() && b1 != b2 && #[trigger] added_phi(
                old(phis).spec_nodes()[b1],
                final(phis).spec_nodes()[b1],
                u.var,
                i1,
            ) && #[trigger] added_phi(old(phis).spec_nodes()[b2], final(phis).spec_nodes()[b2], u.var, i2) ==> i1 != i2,
{
    let ghost succs = graph.succ_seqs();
    let ghost old_nodes = phis.spec_nodes();
    let ghost start = *next_vreg;
    let n = graph.num_nodes();
    let liveness = BackwardLiveness::<bool>::compute(
        u.load_before_store_blocks.as_slice(),
        u.def_blocks.as_slice(),
        graph,
    );
    let live = liveness.live_in;
    proof {
        lemma_live_flags(*u, live@, liveness.live_out@, succs);
    }
    let ghost lf = live_in_flags(*u, succs);
    // the storing blocks start the worklist
    let mut worklist: Vec<usize> = Vec::new();
    let mut placed: Vec<bool> = Vec::new();
    let mut b: usize = 0;
    while b < n
        invariant
            b <= n,
            n == succs.len(),
            u.def_blocks@.len() == n,
            worklist@.len() <= b,
            placed@.len() == b,
            forall|j: int| 0 <= j < b ==> !#[trigger] placed@[j],
            forall|k: int| 0 <= k < worklist@.len() ==> #[trigger] worklist@[k] < b && u.def_blocks@[worklist@[k] as int],
            forall|j: int| 0 <= j < b && u.def_blocks@[j] ==> #[trigger] worklist@.contains(j as usize),
        decreases n - b,
    {
        if u.def_blocks[b] {
            worklist.push(b);
        }
        placed.push(false);
        b += 1;
    }
    proof {
        lemma_count_true_none(placed@);
    }
    let mut head: usize = 0;
    while head < worklist.len()
        invariant
            graph.wf(),
            dom.describes(*graph),
            succs == graph.succ_seqs(),
            n == succs.len(),
            u.def_blocks@.len() == n,
            u.load_before_store_blocks@.len() == n,
            live@.len() == n,
            forall|y: int| 0 <= y < n ==> #[trigger] live@[y] == lf[y],
            lf == live_in_flags(*u, succs),
            phis.spec_nodes().len() == n,
            old_nodes.len() == n,
            forall|y: int| 0 <= y < n ==> !has_phi_for(#[trigger] old_nodes[y], u.var),
            start + n <= usize::MAX,
            placed@.len() == n,
            count_true(placed@) <= n,
            *next_vreg == start + count_true(placed@),
            head <= worklist@.len(),
            // the PHIs so far
            forall|y: int| 0 <= y < n && !placed@[y] ==> #[trigger] phis.spec_nodes()[y] == old_nodes[y],
            forall|y: int| 0 <= y < n && #[trigger] placed@[y] ==> exists|idx: usize|
                start <= idx < *next_vreg && added_phi(old_nodes[y], phis.spec_nodes()[y], u.var, idx),
            forall|y1: int, y2: int, i1: usize, i2: usize|
                0 <= y1 < n && 0 <= y2 < n && y1 != y2 && #[trigger] added_phi(old_nodes[y1], phis.spec_nodes()[y1], u.var, i1)
                    && #[trigger] added_phi(old_nodes[y2], phis.spec_nodes()[y2], u.var, i2) ==> i1 != i2,
            forall|y: int| 0 <= y < n ==> (#[trigger] has_phi_for(phis.spec_nodes()[y], u.var) <==> placed@[y]),
            // the worklist holds the defining blocks
            forall|k: int| 0 <= k < worklist@.len() ==> #[trigger] worklist@[k] < n && def_or_phi(*u, phis.spec_nodes(), worklist@[k] as int),
            forall|y: int| 0 <= y < n && def_or_phi(*u, phis.spec_nodes(), y) ==> #[trigger] worklist@.contains(y as usize),
            worklist@.len() <= n + count_true(placed@),
            // a processed block has PHIs at the live blocks of its frontier
            forall|k: int, y: int|
                0 <= k < head && 0 <= y < n && #[trigger] dom.spec_frontier()[worklist@[k] as int].contains(y as usize) && lf[y]
                    ==> placed@[y],
            // a PHI sits at a live block in the frontier of a processed block
            forall|y: int| 0 <= y < n && #[trigger] placed@[y] ==> lf[y] && exists|k: int|
                0 <= k < head && #[trigger] dom.spec_frontier()[worklist@[k] as int].contains(y as usize),
        decreases 2 * (n - count_true(placed@)) + (worklist@.len() - head),
    {
        let b = worklist[head];
        head += 1;
        let ghost hb = head;
        let ghost m0 = 2 * (n - count_true(placed@)) + (worklist@.len() - head);
        let df = dom.dominance_frontier(b);
        let mut k: usize = 0;
        while k < df.len()
            invariant
                graph.wf(),
                dom.describes(*graph),
                succs == graph.succ_seqs(),
                n == succs.len(),
                b < n,
                df@ == dom.spec_frontier()[b as int],
                k <= df@.len(),
                head == hb,
                0 < head <= worklist@.len(),
                worklist@[head - 1] == b,
                u.def_blocks@.len() == n,
                live@.len() == n,
                forall|y: int| 0 <= y < n ==> #[trigger] live@[y] == lf[y],
                phis.spec_nodes().len() == n,
                old_nodes.len() == n,
                forall|y: int| 0 <= y < n ==> !has_phi_for(#[trigger] old_nodes[y], u.var),
                start + n <= usize::MAX,
                placed@.len() == n,
                count_true(placed@) <= n,
                *next_vreg == start + count_true(placed@),
                forall|y: int| 0 <= y < n && !placed@[y] ==> #[trigger] phis.spec_nodes()[y] == old_nodes[y],
                forall|y: int| 0 <= y < n && #[trigger] placed@[y] ==> exists|idx: usize|
                    start <= idx < *next_vreg && added_phi(old_nodes[y], phis.spec_nodes()[y], u.var, idx),
                forall|y1: int, y2: int, i1: usize, i2: usize|
                    0 <= y1 < n && 0 <= y2 < n && y1 != y2 && #[trigger] added_phi(old_nodes[y1], phis.spec_nodes()[y1], u.var, i1)
                        && #[trigger] added_phi(old_nodes[y2], phis.spec_nodes()[y2], u.var, i2) ==> i1 != i2,
                forall|y: int| 0 <= y < n ==> (#[trigger] has_phi_for(phis.spec_nodes()[y], u.var) <==> placed@[y]),
                forall|j: int| 0 <= j < worklist@.len() ==> #[trigger] worklist@[j] < n && def_or_phi(*u, phis.spec_nodes(), worklist@[j] as int),
                forall|y: int| 0 <= y < n && def_or_phi(*u, phis.spec_nodes(), y) ==> #[trigger] worklist@.contains(y as usize),
                worklist@.len() <= n + count_true(placed@),
                forall|j: int, y: int|
                    0 <= j < head - 1 && 0 <= y < n && #[trigger] dom.spec_frontier()[worklist@[j] as int].contains(y as usize) && lf[y]
                        ==> placed@[y],
                forall|j: int| 0 <= j < k && lf[df@[j] as int] ==> placed@[#[trigger] df@[j] as int],
                forall|y: int| 0 <= y < n && #[trigger] placed@[y] ==> lf[y] && exists|j: int|
                    0 <= j < head && #[trigger] dom.spec_frontier()[worklist@[j] as int].contains(y as usize),
                2 * (n - count_true(placed@)) + (worklist@.len() - head) <= m0,
            decreases df@.len() - k,
        {
            let y = df[k];
            assert(y < n);
            if live[y] && !phis.has_phi(y, u.var) {
                let idx = *next_vreg;
                proof {
                    lemma_count_true_set(placed@, y as int);
                    lemma_count_true_bound(placed@.update(y as int, true));
                }
                *next_vreg = idx + 1;
                let dst = Operand::local(&LocalVariable::new(Dtype::I32, idx, None));
                let ghost before = phis.spec_nodes();
                let ghost wl_before = worklist@;
                phis.insert_phi(y, u.var, dst);
                placed.set(y, true);
                if !u.def_blocks[y] {
                    worklist.push(y);
                }
                proof {
                    let after = phis.spec_nodes();
                    assert(added_phi(old_nodes[y as int], after[y as int], u.var, idx)) by {
                        assert(before[y as int] == old_nodes[y as int]);
                    }
                    assert forall|x: int| 0 <= x < n implies (#[trigger] has_phi_for(after[x], u.var) <==> placed@[x]) by {
                        if x == y as int {
                            assert(after[x].last().var == u.var);
                            assert(after[x][after[x].len() - 1].var == u.var);
                        } else {
                            assert(after[x] == before[x]);
                        }
                    }
                    assert forall|x: int| 0 <= x < n && #[trigger] placed@[x] implies exists|i: usize|
                        start <= i < *next_vreg && added_phi(old_nodes[x], after[x], u.var, i) by {
                        if x == y as int {
                        } else {
                            assert(after[x] == before[x]);
                        }
                    }
                    assert forall|y1: int, y2: int, i1: usize, i2: usize|
                        0 <= y1 < n && 0 <= y2 < n && y1 != y2 && #[trigger] added_phi(old_nodes[y1], after[y1], u.var, i1)
                            && #[trigger] added_phi(old_nodes[y2], after[y2], u.var, i2) implies i1 != i2 by {
                        if y1 == y as int {
                            assert(after[y2] == before[y2]);
                            let w = choose|w: usize| start <= w < idx && added_phi(old_nodes[y2], before[y2], u.var, w);
                            assert(after[y1].last().dst == Operand::Local(LocalRef { dtype: Dtype::I32, index: i1 }));
                            assert(i1 == idx);
                            assert(i2 == w);
                        } else if y2 == y as int {
                            assert(after[y1] == before[y1]);
                            let w = choose|w: usize| start <= w < idx && added_phi(old_nodes[y1], before[y1], u.var, w);
                            assert(i2 == idx);
                            assert(i1 == w);
                        } else {
                            assert(after[y1] == before[y1]);
                            assert(after[y2] == before[y2]);
                        }
                    }
                    assert forall|j: int| 0 <= j < worklist@.len() implies #[trigger] worklist@[j] < n && def_or_phi(*u, after, worklist@[j] as int) by {
                        let w = worklist@[j] as int;
                        if w != y as int {
                            assert(after[w] == before[w]);
                        }
                    }
                    assert forall|x: int| 0 <= x < n && def_or_phi(*u, after, x) implies #[trigger] worklist@.contains(x as usize) by {
                        if x == y as int {
                            if !u.def_blocks@[x] {
                                assert(worklist@[worklist@.len() - 1] == y);
                            }
                        } else {
                            assert(after[x] == before[x]);
                        }
                    }
                    assert forall|x: int| 0 <= x < n && #[trigger] placed@[x] implies lf[x] && exists|j: int|
                        0 <= j < head && #[trigger] dom.spec_frontier()[worklist@[j] as int].contains(x as usize) by {
                        if x == y as int {
                            assert(df@[k as int] == y);
                            assert(worklist@[head - 1] == b);
                            assert(dom.spec_frontier()[worklist@[head - 1] as int].contains(x as usize));
                        } else {
                            let j = choose|j: int|
                                0 <= j < head && #[trigger] dom.spec_frontier()[wl_before[j] as int].contains(x as usize);
                            assert(worklist@[j] == wl_before[j]);
                        }
                    }
                }
            }
            proof {
                if lf[y as int] {
                    assert(placed@[y as int]);
                }
            }
            k += 1;
        }
        proof {
            assert forall|j: int, y: int|
                0 <= j < head && 0 <= y < n && #[trigger] dom.spec_frontier()[worklist@[j] as int].contains(y as usize) && lf[y]
                    implies placed@[y] by {
                if j == head - 1 {
                    let t = choose|t: int| 0 <= t < df@.len() && df@[t] == y as usize;
                    assert(lf[df@[t] as int]);
                }
            }
        }
    }
    proof {
        let fin = phis.spec_nodes();
        assert forall|y: int| 0 <= y < n && #[trigger] has_phi_for(fin[y], u.var) implies lf[y] && exists|b: int|
            0 <= b < n && def_or_phi(*u, fin, b) && #[trigger] dom.spec_frontier()[b].contains(y as usize) by {
            let j = choose|j: int| 0 <= j < head && #[trigger] dom.spec_frontier()[worklist@[j] as int].contains(y as usize);
            let w = worklist@[j] as int;
            assert(def_or_phi(*u, fin, w));
        }
        assert forall|b: int, y: int|
            0 <= b < n && 0 <= y < n && def_or_phi(*u, fin, b) && #[trigger] dom.spec_frontier()[b].contains(y as usize) && lf[y]
                implies has_phi_for(fin[y], u.var) by {
            assert(worklist@.contains(b as usize));
            let j = choose|j: int| 0 <= j < worklist@.len() && worklist@[j] == b as usize;
            assert(dom.spec_frontier()[worklist@[j] as int].contains(y as usize));
        }
        assert forall|x: int| 0 <= x < n implies #[trigger] fin[x] == old_nodes[x] || exists|idx: usize|
            start <= idx < *next_vreg && added_phi(old_nodes[x], fin[x], u.var, idx) by {
            if placed@[x] {
            }
        }
        assert forall|y: int| 0 <= y < n implies #[trigger] fin[y].len() == old_nodes[y].len() + if placed@[y] { 1int } else { 0int } by {
            if placed@[y] {
                let idx = choose|idx: usize| start <= idx < *next_vreg && added_phi(old_nodes[y], fin[y], u.var, idx);
            }
        }
        lemma_phi_count_grow(old_nodes, fin, placed@);
    }
}

/// The number of PHIs in `nodes`.
pub open spec fn phi_count(nodes: Seq<Seq<PhiInfo>>) -> nat
    decreases nodes.len(),
{
    if nodes.len() == 0 {
        0
    } else {
        phi_count(nodes.drop_last()) + nodes.last().len()
    }
}

/// Adding one PHI to each marked block adds as many PHIs as blocks are marked.
proof fn lemma_phi_count_grow(a: Seq<Seq<PhiInfo>>, b: Seq<Seq<PhiInfo>>, placed: Seq<bool>)
    requires
        a.len() == b.len(),
        placed.len() == a.len(),
        forall|y: int| 0 <= y < a.len() ==> #[trigger] b[y].len() == a[y].len() + if placed[y] { 1int } else { 0int },
    ensures
        phi_count(b) == phi_count(a) + count_true(placed),
    decreases a.len(),
{
    if a.len() > 0 {
        let (da, db, dp) = (a.drop_last(), b.drop_last(), placed.drop_last());
        assert forall|y: int| 0 <= y < da.len() implies #[trigger] db[y].len() == da[y].len() + if dp[y] { 1int } else { 0int } by {
            assert(db[y] == b[y] && da[y] == a[y] && dp[y] == placed[y]);
        }
        lemma_phi_count_grow(da, db, dp);
        assert(b.last().len() == a.last().len() + if placed.last() { 1int } else { 0int }) by {
            assert(b[b.len() - 1].len() == a[a.len() - 1].len() + if placed[a.len() - 1] { 1int } else { 0int });
        }
    }
}

/// Blocks without PHIs hold none.
proof fn lemma_phi_count_empty(a: Seq<Seq<PhiInfo>>)
    requires
        forall|y: int| 0 <= y < a.len() ==> (#[trigger] a[y]).len() == 0,
    ensures
        phi_count(a) == 0,
    decreases a.len(),
{
    if a.len() > 0 {
        let d = a.drop_last();
        assert forall|y: int| 0 <= y < d.len() implies (#[trigger] d[y]).len() == 0 by {
            assert(d[y] == a[y]);
        }
        lemma_phi_count_empty(d);
        assert(a.last() == a[a.len() - 1]);
    }
}

/// The register that a PHI's value is, when it is an `i32` register.
pub open spec fn phi_reg(ph: PhiInfo) -> Option<usize> {
    match ph.dst {
        Operand::Local(l) => if l.dtype == Dtype::I32 {
            Some(l.index)
        } else {
            None
        },
        _ => None,
    }
}

/// Every PHI is fresh: it has no incoming value yet, and defines its own
/// `i32` register, numbered in `[lo, hi)`.
pub open spec fn fresh_phis(nodes: Seq<Seq<PhiInfo>>, lo: int, hi: int) -> bool {
    &&& forall|b: int, k: int|
        0 <= b < nodes.len() && 0 <= k < nodes[b].len() ==> (#[trigger] nodes[b][k]).incomings@.len() == 0
    &&& fresh_regs(nodes, lo, hi)
}

/// Every PHI defines its own `i32` register, numbered in `[lo, hi)`.
pub open spec fn fresh_regs(nodes: Seq<Seq<PhiInfo>>, lo: int, hi: int) -> bool {
    &&& forall|b: int, k: int|
        0 <= b < nodes.len() && 0 <= k < nodes[b].len() ==> phi_reg(#[trigger] nodes[b][k]) is Some && lo <= phi_reg(
            nodes[b][k],
        ).unwrap() < hi
    &&& forall|b1: int, k1: int, b2: int, k2: int|
        0 <= b1 < nodes.len() && 0 <= k1 < nodes[b1].len() && 0 <= b2 < nodes.len() && 0 <= k2 < nodes[b2].len()
            && (b1 != b2 || k1 != k2) ==> phi_reg(#[trigger] nodes[b1][k1]) != phi_reg(#[trigger] nodes[b2][k2])
}

/// The usage needs PHIs: it is promoted and loaded somewhere.
pub open spec fn needs_phis(us: Seq<VarUsage>, flags: Seq<bool>, i: int) -> bool {
    flags[i] && us[i].has_load
}

/// One of the first `m` usages needs PHIs and is for register `var`.
pub open spec fn needed_below(us: Seq<VarUsage>, flags: Seq<bool>, m: int, var: usize) -> bool {
    exists|a: int| 0 <= a < m && #[trigger] needs_phis(us, flags, a) && us[a].var == var
}

proof fn lemma_needed_below_grow(us: Seq<VarUsage>, flags: Seq<bool>, m: int, m2: int, var: usize)
    requires
        needed_below(us, flags, m, var),
        m <= m2,
    ensures
        needed_below(us, flags, m2, var),
{
    let a = choose|a: int| 0 <= a < m && #[trigger] needs_phis(us, flags, a) && us[a].var == var;
    assert(needs_phis(us, flags, a));
}

/// The PHIs of all promoted registers: for each one that is loaded, PHIs as
/// `phis_placed` says; none for any other register; every PHI fresh.
pub open spec fn all_phis_placed(
    us: Seq<VarUsage>,
    flags: Seq<bool>,
    nodes: Seq<Seq<PhiInfo>>,
    graph: Graph,
    dom: DominatorInfo,
    lo: int,
    hi: int,
) -> bool {
    &&& forall|i: int| 0 <= i < us.len() && needs_phis(us, flags, i) ==> phis_placed(
        #[trigger] us[i],
        nodes,
        live_in_flags(us[i], graph.succ_seqs()),
        dom,
    )
    &&& forall|b: int, k: int|
        0 <= b < nodes.len() && 0 <= k < nodes[b].len() ==> needed_below(us, flags, us.len() as int, (#[trigger] nodes[b][k]).var)
    &&& fresh_phis(nodes, lo, hi)
}

proof fn lemma_has_phi_other(before: Seq<PhiInfo>, after: Seq<PhiInfo>, var: usize, x: usize, idx: usize)
    requires
        x != var,
        after == before || added_phi(before, after, var, idx),
    ensures
        has_phi_for(after, x) == has_phi_for(before, x),
{
    if after != before {
        if has_phi_for(after, x) {
            let k = choose|k: int| 0 <= k < after.len() && (#[trigger] after[k]).var == x;
            if k == after.len() - 1 {
                assert(after.last().var == var);
            } else {
                assert(before[k] == after.drop_last()[k]);
            }
        }
        if has_phi_for(before, x) {
            let k = choose|k: int| 0 <= k < before.len() && (#[trigger] before[k]).var == x;
            assert(after[k] == after.drop_last()[k]);
        }
    }
}

/// Places the PHIs of every promoted register that is loaded somewhere.
fn place_phis(
    usage: &Vec<VarUsage>,
    flags: &Vec<bool>,
    phis: &mut PhiPlacement,
    graph: &Graph,
    dom: &DominatorInfo,
    next_vreg: &mut usize,
)
    requires
        graph.wf(),
        dom.describes(*graph),
        flags@.len() == usage@.len(),
        forall|i: int, j: int| 0 <= i < j < usage@.len() ==> (#[trigger] usage@[i]).var != (#[trigger] usage@[j]).var,
        forall|i: int|
            0 <= i < usage@.len() ==> (#[trigger] usage@[i]).def_blocks@.len() == graph.succ_seqs().len()
                && usage@[i].load_before_store_blocks@.len() == graph.succ_seqs().len(),
        old(phis).spec_nodes().len() == graph.succ_seqs().len(),
        forall|b: int| 0 <= b < graph.succ_seqs().len() ==> (#[trigger] old(phis).spec_nodes()[b]).len() == 0,
        *old(next_vreg) + usage@.len() * graph.succ_seqs().len() <= usize::MAX,
    ensures
        final(phis).spec_nodes().len() == graph.succ_seqs().len(),
        *old(next_vreg) <= *final(next_vreg),
        all_phis_placed(usage@, flags@, final(phis).spec_nodes(), *graph, *dom, *old(next_vreg) as int, *final(next_vreg) as int),
        *final(next_vreg) == *old(next_vreg) + phi_count(final(phis).spec_nodes()),
{
    let ghost n = graph.succ_seqs().len();
    let ghost start = *next_vreg;
    proof {
        lemma_phi_count_empty(phis.spec_nodes());
    }
    let mut i: usize = 0;
    while i < usage.len()
        invariant
            i <= usage@.len(),
            graph.wf(),
            dom.describes(*graph),
            n == graph.succ_seqs().len(),
            flags@.len() == usage@.len(),
            forall|a: int, c: int| 0 <= a < c < usage@.len() ==> (#[trigger] usage@[a]).var != (#[trigger] usage@[c]).var,
            forall|a: int|
                0 <= a < usage@.len() ==> (#[trigger] usage@[a]).def_blocks@.len() == n
                    && usage@[a].load_before_store_blocks@.len() == n,
            phis.spec_nodes().len() == n,
            start <= *next_vreg <= start + i * n,
            *next_vreg == start + phi_count(phis.spec_nodes()),
            start + usage@.len() * n <= usize::MAX,
            forall|a: int| 0 <= a < i && needs_phis(usage@, flags@, a) ==> phis_placed(
                #[trigger] usage@[a],
                phis.spec_nodes(),
                live_in_flags(usage@[a], graph.succ_seqs()),
                *dom,
            ),
            forall|b: int, k: int|
                0 <= b < n && 0 <= k < phis.spec_nodes()[b].len() ==> needed_below(usage@, flags@, i as int, (#[trigger] phis.spec_nodes()[b][k]).var),
            fresh_phis(phis.spec_nodes(), start as int, *next_vreg as int),
        decreases usage@.len() - i,
    {
        if flags[i] && usage[i].has_load {
            let ghost before = phis.spec_nodes();
            let ghost mid = *next_vreg;
            proof {
                assert(mid + n <= usize::MAX) by (nonlinear_arith)
                    requires
                        mid <= start + i * n,
                        start + usage@.len() * n <= usize::MAX,
                        i < usage@.len();
                assert forall|b: int| 0 <= b < n implies !has_phi_for(#[trigger] before[b], usage@[i as int].var) by {
                    if has_phi_for(before[b], usage@[i as int].var) {
                        let k = choose|k: int| 0 <= k < before[b].len() && (#[trigger] before[b][k]).var == usage@[i as int].var;
                        assert(needed_below(usage@, flags@, i as int, before[b][k].var));
                        let a = choose|a: int| 0 <= a < i && #[trigger] needs_phis(usage@, flags@, a) && usage@[a].var == before[b][k].var;
                    }
                }
            }
            place_var_phis(&usage[i], phis, graph, dom, next_vreg);
            proof {
                let after = phis.spec_nodes();
                let x = usage@[i as int].var;
                assert(*next_vreg <= start + (i + 1) * n) by (nonlinear_arith)
                    requires
                        *next_vreg <= mid + n,
                        mid <= start + i * n;
                assert forall|a: int| 0 <= a < i + 1 && needs_phis(usage@, flags@, a) implies phis_placed(
                    #[trigger] usage@[a],
                    after,
                    live_in_flags(usage@[a], graph.succ_seqs()),
                    *dom,
                ) by {
                    if a < i {
                        let ua = usage@[a];
                        assert forall|b: int| 0 <= b < n implies #[trigger] has_phi_for(after[b], ua.var) == has_phi_for(before[b], ua.var) by {
                            if after[b] != before[b] {
                                let idx = choose|idx: usize| mid <= idx < *next_vreg && added_phi(before[b], after[b], x, idx);
                                lemma_has_phi_other(before[b], after[b], x, ua.var, idx);
                            }
                        }
                        assert forall|b: int| 0 <= b < n implies #[trigger] def_or_phi(ua, after, b) == def_or_phi(ua, before, b) by {
                            assert(has_phi_for(after[b], ua.var) == has_phi_for(before[b], ua.var));
                        }
                    }
                }
                assert forall|b: int, k: int|
                    0 <= b < n && 0 <= k < after[b].len() implies needed_below(usage@, flags@, i + 1, (#[trigger] after[b][k]).var) by {
                    if after[b] != before[b] && k == after[b].len() - 1 {
                        assert(usage@[i as int].var == after[b][k].var);
                        assert(needs_phis(usage@, flags@, i as int));
                    } else {
                        if after[b] != before[b] {
                            assert(after[b][k] == after[b].drop_last()[k]);
                        }
                        assert(after[b][k] == before[b][k]);
                        assert(needed_below(usage@, flags@, i as int, before[b][k].var));
                        lemma_needed_below_grow(usage@, flags@, i as int, i + 1, before[b][k].var);
                    }
                }
                assert(fresh_phis(after, start as int, *next_vreg as int)) by {
                    assert forall|b: int, k: int|
                        0 <= b < n && 0 <= k < after[b].len() implies (#[trigger] after[b][k]).incomings@.len() == 0
                            && phi_reg(after[b][k]) is Some && start <= phi_reg(after[b][k]).unwrap() < *next_vreg by {
                        if after[b] != before[b] && k == after[b].len() - 1 {
                            let idx = choose|idx: usize| mid <= idx < *next_vreg && added_phi(before[b], after[b], x, idx);
                            assert(after[b][k] == after[b].last());
                        } else if after[b] != before[b] {
                            assert(after[b][k] == after[b].drop_last()[k]);
                        }
                    }
                    assert forall|b1: int, k1: int, b2: int, k2: int|
                        0 <= b1 < n && 0 <= k1 < after[b1].len() && 0 <= b2 < n && 0 <= k2 < after[b2].len()
                            && (b1 != b2 || k1 != k2) implies phi_reg(#[trigger] after[b1][k1]) != phi_reg(#[trigger] after[b2][k2]) by {
                        let new1 = after[b1] != before[b1] && k1 == after[b1].len() - 1;
                        let new2 = after[b2] != before[b2] && k2 == after[b2].len() - 1;
                        if !new1 {
                            if after[b1] != before[b1] {
                                assert(after[b1][k1] == after[b1].drop_last()[k1]);
                            }
                        }
                        if !new2 {
                            if after[b2] != before[b2] {
                                assert(after[b2][k2] == after[b2].drop_last()[k2]);
                            }
                        }
                        if new1 && new2 {
                            let i1 = choose|idx: usize| mid <= idx < *next_vreg && added_phi(before[b1], after[b1], x, idx);
                            let i2 = choose|idx: usize| mid <= idx < *next_vreg && added_phi(before[b2], after[b2], x, idx);
                            assert(b1 != b2);
                            assert(i1 != i2);
                            assert(after[b1][k1] == after[b1].last());
                            assert(after[b2][k2] == after[b2].last());
                        } else if new1 {
                            let i1 = choose|idx: usize| mid <= idx < *next_vreg && added_phi(before[b1], after[b1], x, idx);
                            assert(after[b1][k1] == after[b1].last());
                        } else if new2 {
                            let i2 = choose|idx: usize| mid <= idx < *next_vreg && added_phi(before[b2], after[b2], x, idx);
                            assert(after[b2][k2] == after[b2].last());
                        }
                    }
                }
            }
        } else {
            proof {
                assert(*next_vreg <= start + (i + 1) * n) by (nonlinear_arith)
                    requires
                        *next_vreg <= start + i * n;
                let nodes = phis.spec_nodes();
                assert forall|b: int, k: int|
                    0 <= b < n && 0 <= k < nodes[b].len() implies needed_below(usage@, flags@, i + 1, (#[trigger] nodes[b][k]).var) by {
                    lemma_needed_below_grow(usage@, flags@, i as int, i + 1, nodes[b][k].var);
                }
            }
        }
        i += 1;
    }
}

// ---------------------------------------------------------------------------
// Renaming
// ---------------------------------------------------------------------------

/// Whether a register is one of the promoted ones.
pub open spec fn is_promoted(promoted: Seq<usize>, v: Option<usize>) -> bool {
    match v {
        Some(x) => promoted.contains(x),
        None => false,
    }
}

/// A statement that stays after promotion: not an `alloca` of a promoted
/// register, nor a load or store through one.
pub open spec fn kept(s: Stmt, promoted: Seq<usize>) -> bool {
    match s.inner {
        StmtInner::Alloca(a) => !is_promoted(promoted, a.dst.spec_vreg()),
        StmtInner::Load(l) => !is_promoted(promoted, l.ptr.spec_vreg()),
        StmtInner::Store(st) => !is_promoted(promoted, st.ptr.spec_vreg()),
        _ => true,
    }
}

/// `b` is what `a` reads after promotion: the same operand, unless `a` is a
/// register in `loaded` (one that a removed load wrote), which may become
/// one of `vals`.
pub open spec fn read_after(a: Operand, b: Operand, loaded: Set<usize>, vals: Set<Operand>) -> bool {
    same_operand(b, a) || (a.spec_vreg() matches Some(x) && loaded.contains(x) && vals.contains(b))
}

/// The value recorded last for register `x` in `aliases`.
pub open spec fn last_alias(aliases: Seq<(usize, Operand)>, x: usize) -> Option<Operand>
    decreases aliases.len(),
{
    if aliases.len() == 0 {
        None
    } else if aliases.last().0 == x {
        Some(aliases.last().1)
    } else {
        last_alias(aliases.drop_last(), x)
    }
}

/// `op` read through `aliases`: a register with a recorded value reads as
/// that value, itself read through, at most `fuel` times over.
pub open spec fn resolved(aliases: Seq<(usize, Operand)>, op: Operand, fuel: nat) -> Operand
    decreases fuel,
{
    if fuel == 0 {
        op
    } else {
        match op {
            Operand::Local(l) => match last_alias(aliases, l.index) {
                Some(v) => resolved(aliases, v, (fuel - 1) as nat),
                None => op,
            },
            _ => op,
        }
    }
}

/// `op` read through `aliases`, following at most as many links as there are aliases.
pub open spec fn read_through(aliases: Seq<(usize, Operand)>, op: Operand) -> Operand {
    resolved(aliases, op, aliases.len())
}

/// `b` is (a copy of) `a` read through `aliases`.
pub open spec fn read_exact(a: Operand, b: Operand, aliases: Seq<(usize, Operand)>) -> bool {
    same_operand(b, read_through(aliases, a))
}

/// `b` is `a` with each operand that `a` reads read through `aliases`: the
/// same kind of statement, writing the same operands, through the same
/// pointers, to the same labels.
pub open spec fn same_but_reads(a: Stmt, b: Stmt, aliases: Seq<(usize, Operand)>) -> bool {
    match (a.inner, b.inner) {
        (StmtInner::Alloca(x), StmtInner::Alloca(y)) => same_operand(x.dst, y.dst),
        (StmtInner::Load(x), StmtInner::Load(y)) => same_operand(x.dst, y.dst) && same_operand(x.ptr, y.ptr),
        (StmtInner::Store(x), StmtInner::Store(y)) => same_operand(x.ptr, y.ptr) && read_exact(x.src, y.src, aliases),
        (StmtInner::Gep(x), StmtInner::Gep(y)) => same_operand(x.new_ptr, y.new_ptr) && read_exact(x.base_ptr, y.base_ptr, aliases)
            && read_exact(x.index, y.index, aliases),
        (StmtInner::BiOp(x), StmtInner::BiOp(y)) => x.op == y.op && same_operand(x.dst, y.dst) && read_exact(x.left, y.left, aliases)
            && read_exact(x.right, y.right, aliases),
        (StmtInner::Cmp(x), StmtInner::Cmp(y)) => x.op == y.op && same_operand(x.dst, y.dst) && read_exact(x.left, y.left, aliases)
            && read_exact(x.right, y.right, aliases),
        (StmtInner::CJump(x), StmtInner::CJump(y)) => x.true_label == y.true_label && x.false_label == y.false_label
            && read_exact(x.cond, y.cond, aliases),
        (StmtInner::Jump(x), StmtInner::Jump(y)) => x.target == y.target,
        (StmtInner::Label(x), StmtInner::Label(y)) => x.label == y.label,
        (StmtInner::Call(x), StmtInner::Call(y)) => x.func_name@ == y.func_name@ && same_opt_operand(x.result, y.result)
            && x.args@.len() == y.args@.len() && forall|k: int|
            0 <= k < x.args@.len() ==> read_exact(#[trigger] x.args@[k], y.args@[k], aliases),
        (StmtInner::Return(x), StmtInner::Return(y)) => x.val.is_some() == y.val.is_some() && (x.val is Some
            ==> read_exact(x.val.unwrap(), y.val.unwrap(), aliases)),
        (StmtInner::Phi(x), StmtInner::Phi(y)) => same_operand(x.dst, y.dst) && x.incomings@.len() == y.incomings@.len()
            && forall|k: int|
            0 <= k < x.incomings@.len() ==> (#[trigger] x.incomings@[k]).0 == y.incomings@[k].0 && read_exact(
                x.incomings@[k].1,
                y.incomings@[k].1,
                aliases,
            ),
        _ => false,
    }
}

proof fn lemma_last_alias_at(aliases: Seq<(usize, Operand)>, x: usize, k: int)
    requires
        0 <= k < aliases.len(),
        aliases[k].0 == x,
        forall|j: int| k < j < aliases.len() ==> (#[trigger] aliases[j]).0 != x,
    ensures
        last_alias(aliases, x) == Some(aliases[k].1),
    decreases aliases.len(),
{
    if k < aliases.len() - 1 {
        let d = aliases.drop_last();
        assert forall|j: int| k < j < d.len() implies (#[trigger] d[j]).0 != x by {
            assert(d[j] == aliases[j]);
        }
        lemma_last_alias_at(d, x, k);
    }
}

proof fn lemma_last_alias_none(aliases: Seq<(usize, Operand)>, x: usize)
    requires
        forall|j: int| 0 <= j < aliases.len() ==> (#[trigger] aliases[j]).0 != x,
    ensures
        last_alias(aliases, x) is None,
    decreases aliases.len(),
{
    if aliases.len() > 0 {
        let d = aliases.drop_last();
        assert forall|j: int| 0 <= j < d.len() implies (#[trigger] d[j]).0 != x by {
            assert(d[j] == aliases[j]);
        }
        lemma_last_alias_none(d, x);
    }
}

/// Copies read through the same aliases read as copies.
proof fn lemma_resolved_copy(aliases: Seq<(usize, Operand)>, a: Operand, b: Operand, fuel: nat)
    requires
        same_operand(a, b),
    ensures
        same_operand(resolved(aliases, a, fuel), resolved(aliases, b, fuel)),
{
    match a {
        Operand::Local(_) => {
            assert(a == b);
        },
        _ => {
            assert(resolved(aliases, a, fuel) == a);
            assert(resolved(aliases, b, fuel) == b);
        },
    }
}

/// `b` is `a` with possibly other values in the operands that `a` reads,
/// each as `read_after` says: the same kind of statement, writing the same
/// operands, through the same pointers, to the same labels.
pub open spec fn same_but_uses(a: Stmt, b: Stmt, loaded: Set<usize>, vals: Set<Operand>) -> bool {
    match (a.inner, b.inner) {
        (StmtInner::Alloca(x), StmtInner::Alloca(y)) => same_operand(x.dst, y.dst),
        (StmtInner::Load(x), StmtInner::Load(y)) => same_operand(x.dst, y.dst) && same_operand(x.ptr, y.ptr),
        (StmtInner::Store(x), StmtInner::Store(y)) => same_operand(x.ptr, y.ptr) && read_after(x.src, y.src, loaded, vals),
        (StmtInner::Gep(x), StmtInner::Gep(y)) => same_operand(x.new_ptr, y.new_ptr) && read_after(x.base_ptr, y.base_ptr, loaded, vals)
            && read_after(x.index, y.index, loaded, vals),
        (StmtInner::BiOp(x), StmtInner::BiOp(y)) => x.op == y.op && same_operand(x.dst, y.dst) && read_after(x.left, y.left, loaded, vals)
            && read_after(x.right, y.right, loaded, vals),
        (StmtInner::Cmp(x), StmtInner::Cmp(y)) => x.op == y.op && same_operand(x.dst, y.dst) && read_after(x.left, y.left, loaded, vals)
            && read_after(x.right, y.right, loaded, vals),
        (StmtInner::CJump(x), StmtInner::CJump(y)) => x.true_label == y.true_label && x.false_label == y.false_label
            && read_after(x.cond, y.cond, loaded, vals),
        (StmtInner::Jump(x), StmtInner::Jump(y)) => x.target == y.target,
        (StmtInner::Label(x), StmtInner::Label(y)) => x.label == y.label,
        (StmtInner::Call(x), StmtInner::Call(y)) => x.func_name@ == y.func_name@ && same_opt_operand(x.result, y.result)
            && x.args@.len() == y.args@.len() && forall|k: int|
            0 <= k < x.args@.len() ==> read_after(#[trigger] x.args@[k], y.args@[k], loaded, vals),
        (StmtInner::Return(x), StmtInner::Return(y)) => x.val.is_some() == y.val.is_some() && (x.val is Some
            ==> read_after(x.val.unwrap(), y.val.unwrap(), loaded, vals)),
        (StmtInner::Phi(x), StmtInner::Phi(y)) => same_operand(x.dst, y.dst) && x.incomings@.len() == y.incomings@.len()
            && forall|k: int|
            0 <= k < x.incomings@.len() ==> (#[trigger] x.incomings@[k]).0 == y.incomings@[k].0 && read_after(
                x.incomings@[k].1,
                y.incomings@[k].1,
                loaded,
                vals,
            ),
        _ => false,
    }
}

/// `s` loads register `x` through a promoted register.
pub open spec fn loads_into(s: Stmt, promoted: Seq<usize>, x: usize) -> bool {
    match s.inner {
        StmtInner::Load(l) => is_promoted(promoted, l.ptr.spec_vreg()) && l.dst.spec_vreg() == Some(x),
        _ => false,
    }
}

/// The registers that a load through a promoted register writes.
pub open spec fn loaded_regs(blocks: Seq<BasicBlock>, promoted: Seq<usize>) -> Set<usize> {
    Set::new(
        |x: usize|
            exists|b: int, k: int|
                0 <= b < blocks.len() && 0 <= k < blocks[b].stmts@.len() && loads_into(#[trigger] blocks[b].stmts@[k], promoted, x),
    )
}

/// `s` stores `v` (up to copies) through a promoted register.
pub open spec fn stores_value(s: Stmt, promoted: Seq<usize>, v: Operand) -> bool {
    match s.inner {
        StmtInner::Store(st) => is_promoted(promoted, st.ptr.spec_vreg()) && same_operand(v, st.src),
        _ => false,
    }
}

/// The values that promotion reads where a removed load's register was
/// read: a value stored through a promoted register, the register of a PHI
/// in `phis`, or 0 (a slot read before any store).
pub open spec fn promoted_values(blocks: Seq<BasicBlock>, promoted: Seq<usize>, phis: Seq<Seq<PhiInfo>>) -> Set<Operand> {
    Set::new(
        |v: Operand|
            {
                ||| v == Operand::Integer(Integer { value: 0 })
                ||| exists|b: int, k: int|
                    0 <= b < blocks.len() && 0 <= k < blocks[b].stmts@.len() && stores_value(#[trigger] blocks[b].stmts@[k], promoted, v)
                ||| exists|b: int, k: int| 0 <= b < phis.len() && 0 <= k < phis[b].len() && same_operand(v, (#[trigger] phis[b][k]).dst)
            },
    )
}

/// A copy of one of the promoted values is one.
proof fn lemma_promoted_values_copy(v: Operand, w: Operand, blocks: Seq<BasicBlock>, promoted: Seq<usize>, phis: Seq<Seq<PhiInfo>>)
    requires
        promoted_values(blocks, promoted, phis).contains(w),
        same_operand(v, w),
    ensures
        promoted_values(blocks, promoted, phis).contains(v),
{
    if w == Operand::Integer(Integer { value: 0 }) {
    } else if exists|b: int, k: int|
        0 <= b < blocks.len() && 0 <= k < blocks[b].stmts@.len() && stores_value(#[trigger] blocks[b].stmts@[k], promoted, w) {
        let (b, k) = choose|b: int, k: int|
            0 <= b < blocks.len() && 0 <= k < blocks[b].stmts@.len() && stores_value(#[trigger] blocks[b].stmts@[k], promoted, w);
        if let StmtInner::Store(st) = blocks[b].stmts@[k].inner {
            lemma_same_operand_props(v, w, st.src);
        }
        assert(stores_value(blocks[b].stmts@[k], promoted, v));
    } else {
        let (b, k) = choose|b: int, k: int| 0 <= b < phis.len() && 0 <= k < phis[b].len() && same_operand(w, (#[trigger] phis[b][k]).dst);
        lemma_same_operand_props(v, w, phis[b][k].dst);
        assert(same_operand(v, phis[b][k].dst));
    }
}

/// Only the PHIs' registers matter to the promoted values.
proof fn lemma_promoted_values_shape(blocks: Seq<BasicBlock>, promoted: Seq<usize>, a: Seq<Seq<PhiInfo>>, b: Seq<Seq<PhiInfo>>)
    requires
        same_phi_shape(a, b),
    ensures
        promoted_values(blocks, promoted, a) == promoted_values(blocks, promoted, b),
{
    assert forall|v: Operand| promoted_values(blocks, promoted, a).contains(v) == promoted_values(blocks, promoted, b).contains(v) by {
        if exists|x: int, k: int| 0 <= x < a.len() && 0 <= k < a[x].len() && same_operand(v, (#[trigger] a[x][k]).dst) {
            let (x, k) = choose|x: int, k: int| 0 <= x < a.len() && 0 <= k < a[x].len() && same_operand(v, (#[trigger] a[x][k]).dst);
            assert(same_operand(v, b[x][k].dst));
        }
        if exists|x: int, k: int| 0 <= x < b.len() && 0 <= k < b[x].len() && same_operand(v, (#[trigger] b[x][k]).dst) {
            let (x, k) = choose|x: int, k: int| 0 <= x < b.len() && 0 <= k < b[x].len() && same_operand(v, (#[trigger] b[x][k]).dst);
            assert(same_operand(v, a[x][k].dst));
        }
    }
    assert(promoted_values(blocks, promoted, a) =~= promoted_values(blocks, promoted, b));
}

/// The values that `aliases` records.
pub open spec fn alias_vals(aliases: Seq<(usize, Operand)>) -> Set<Operand> {
    Set::new(|v: Operand| exists|k: int| 0 <= k < aliases.len() && same_operand(v, (#[trigger] aliases[k]).1))
}

/// The registers that `aliases` records a value for.
pub open spec fn alias_keys(aliases: Seq<(usize, Operand)>) -> Set<usize> {
    Set::new(|x: usize| exists|k: int| 0 <= k < aliases.len() && (#[trigger] aliases[k]).0 == x)
}

/// The statements of `stmts` that stay, in order.
pub open spec fn kept_stmts(stmts: Seq<Stmt>, promoted: Seq<usize>) -> Seq<Stmt>
    decreases stmts.len(),
{
    if stmts.len() == 0 {
        Seq::empty()
    } else {
        let k = kept_stmts(stmts.drop_last(), promoted);
        if kept(stmts.last(), promoted) {
            k.push(stmts.last())
        } else {
            k
        }
    }
}

/// `out` holds the statements that stay, in order, each with possibly other
/// values read where it reads a register in `loaded`, as `same_but_uses`
/// says.
pub open spec fn renamed_from(
    out: Seq<Stmt>,
    stmts: Seq<Stmt>,
    promoted: Seq<usize>,
    loaded: Set<usize>,
    vals: Set<Operand>,
) -> bool {
    let k = kept_stmts(stmts, promoted);
    &&& out.len() == k.len()
    &&& forall|i: int| 0 <= i < out.len() ==> same_but_uses(k[i], #[trigger] out[i], loaded, vals)
}

/// Reading through more aliases allows more.
proof fn lemma_same_but_uses_mono(a: Stmt, b: Stmt, l1: Set<usize>, l2: Set<usize>, v1: Set<Operand>, v2: Set<Operand>)
    requires
        same_but_uses(a, b, l1, v1),
        l1.subset_of(l2),
        v1.subset_of(v2),
    ensures
        same_but_uses(a, b, l2, v2),
{
    match (a.inner, b.inner) {
        (StmtInner::Call(x), StmtInner::Call(y)) => {
            assert forall|k: int| 0 <= k < x.args@.len() implies read_after(#[trigger] x.args@[k], y.args@[k], l2, v2) by {
                assert(read_after(x.args@[k], y.args@[k], l1, v1));
            }
        },
        (StmtInner::Phi(x), StmtInner::Phi(y)) => {
            assert forall|k: int| 0 <= k < x.incomings@.len() implies (#[trigger] x.incomings@[k]).0 == y.incomings@[k].0
                && read_after(x.incomings@[k].1, y.incomings@[k].1, l2, v2) by {
                assert(read_after(x.incomings@[k].1, y.incomings@[k].1, l1, v1));
            }
        },
        _ => {},
    }
}

/// The value recorded last for register `idx` in `aliases`.
fn lookup_alias(aliases: &Vec<(usize, Operand)>, idx: usize) -> (r: Option<&Operand>)
    ensures
        r matches Some(v) ==> exists|k: int| 0 <= k < aliases@.len() && (#[trigger] aliases@[k]).0 == idx && aliases@[k].1 == *v,
        r matches Some(v) ==> last_alias(aliases@, idx) == Some(*v),
        r is None ==> last_alias(aliases@, idx) is None,
{
    let mut k = aliases.len();
    while k > 0
        invariant
            k <= aliases@.len(),
            forall|j: int| k <= j < aliases@.len() ==> (#[trigger] aliases@[j]).0 != idx,
        decreases k,
    {
        k -= 1;
        if aliases[k].0 == idx {
            assert(aliases@[k as int].0 == idx && aliases@[k as int].1 == aliases@[k as int].1);
            proof {
                lemma_last_alias_at(aliases@, idx, k as int);
            }
            return Some(&aliases[k].1);
        }
    }
    proof {
        lemma_last_alias_none(aliases@, idx);
    }
    None
}

/// Follows the aliases recorded for loaded registers until a value that is
/// not one, following at most as many links as there are aliases.
fn resolve_alias(aliases: &Vec<(usize, Operand)>, op: &Operand) -> (r: Operand)
    ensures
        read_after(*op, r, alias_keys(aliases@), alias_vals(aliases@)),
        same_operand(r, *op) || alias_vals(aliases@).contains(r),
        read_exact(*op, r, aliases@),
{
    let mut cur = op.clone();
    let mut fuel = aliases.len();
    proof {
        lemma_resolved_copy(aliases@, cur, *op, fuel as nat);
    }
    loop
        invariant
            read_after(*op, cur, alias_keys(aliases@), alias_vals(aliases@)),
            same_operand(cur, *op) || alias_vals(aliases@).contains(cur),
            same_operand(resolved(aliases@, cur, fuel as nat), read_through(aliases@, *op)),
        ensures
            read_after(*op, cur, alias_keys(aliases@), alias_vals(aliases@)),
            same_operand(cur, *op) || alias_vals(aliases@).contains(cur),
            same_operand(cur, read_through(aliases@, *op)),
        decreases fuel,
    {
        if fuel == 0 {
            break;
        }
        let next = match &cur {
            Operand::Local(l) => match lookup_alias(aliases, l.index) {
                Some(v) => {
                    let c = v.clone();
                    assert(alias_keys(aliases@).contains(l.index));
                    assert(alias_vals(aliases@).contains(c));
                    assert(read_after(*op, c, alias_keys(aliases@), alias_vals(aliases@)));
                    proof {
                        assert(resolved(aliases@, cur, fuel as nat) == resolved(aliases@, *v, (fuel - 1) as nat));
                        lemma_resolved_copy(aliases@, c, *v, (fuel - 1) as nat);
                        lemma_same_operand_props(
                            resolved(aliases@, c, (fuel - 1) as nat),
                            resolved(aliases@, *v, (fuel - 1) as nat),
                            read_through(aliases@, *op),
                        );
                    }
                    Some(c)
                },
                None => None,
            },
            _ => None,
        };
        match next {
            Some(v) => {
                cur = v;
                fuel -= 1;
            },
            None => {
                assert(resolved(aliases@, cur, fuel as nat) == cur);
                break;
            },
        }
    }
    cur
}

fn resolve_all(aliases: &Vec<(usize, Operand)>, v: &Vec<Operand>) -> (r: Vec<Operand>)
    ensures
        r@.len() == v@.len(),
        forall|k: int| 0 <= k < v@.len() ==> read_after(#[trigger] v@[k], r@[k], alias_keys(aliases@), alias_vals(aliases@)),
        forall|k: int| 0 <= k < v@.len() ==> read_exact(#[trigger] v@[k], r@[k], aliases@),
{
    let mut r: Vec<Operand> = Vec::new();
    let mut k: usize = 0;
    while k < v.len()
        invariant
            k <= v@.len(),
            r@.len() == k,
            forall|j: int| 0 <= j < k ==> read_after(#[trigger] v@[j], r@[j], alias_keys(aliases@), alias_vals(aliases@)),
            forall|j: int| 0 <= j < k ==> read_exact(#[trigger] v@[j], r@[j], aliases@),
        decreases v@.len() - k,
    {
        r.push(resolve_alias(aliases, &v[k]));
        k += 1;
    }
    r
}

fn resolve_opt(aliases: &Vec<(usize, Operand)>, o: &Option<Operand>) -> (r: Option<Operand>)
    ensures
        r.is_some() == o.is_some(),
        o is Some ==> read_after(o.unwrap(), r.unwrap(), alias_keys(aliases@), alias_vals(aliases@)),
        o is Some ==> read_exact(o.unwrap(), r.unwrap(), aliases@),
{
    match o {
        Some(x) => Some(resolve_alias(aliases, x)),
        None => None,
    }
}

/// `stmt` with every operand it reads replaced by what its alias chain ends at.
fn rewrite_stmt(aliases: &Vec<(usize, Operand)>, stmt: &Stmt) -> (r: Stmt)
    ensures
        same_but_uses(*stmt, r, alias_keys(aliases@), alias_vals(aliases@)),
        same_but_reads(*stmt, r, aliases@),
{
    let inner = match &stmt.inner {
        StmtInner::Alloca(x) => StmtInner::Alloca(AllocaStmt { dst: x.dst.clone() }),
        StmtInner::Load(x) => StmtInner::Load(LoadStmt { dst: x.dst.clone(), ptr: x.ptr.clone() }),
        StmtInner::Store(x) => StmtInner::Store(
            StoreStmt { src: resolve_alias(aliases, &x.src), ptr: x.ptr.clone() },
        ),
        StmtInner::Gep(x) => StmtInner::Gep(
            GepStmt {
                new_ptr: x.new_ptr.clone(),
                base_ptr: resolve_alias(aliases, &x.base_ptr),
                index: resolve_alias(aliases, &x.index),
            },
        ),
        StmtInner::BiOp(x) => StmtInner::BiOp(
            BiOpStmt {
                op: x.op,
                left: resolve_alias(aliases, &x.left),
                right: resolve_alias(aliases, &x.right),
                dst: x.dst.clone(),
            },
        ),
        StmtInner::Cmp(x) => StmtInner::Cmp(
            CmpStmt {
                op: x.op,
                left: resolve_alias(aliases, &x.left),
                right: resolve_alias(aliases, &x.right),
                dst: x.dst.clone(),
            },
        ),
        StmtInner::CJump(x) => StmtInner::CJump(
            CJumpStmt {
                cond: resolve_alias(aliases, &x.cond),
                true_label: x.true_label.clone(),
                false_label: x.false_label.clone(),
            },
        ),
        StmtInner::Jump(x) => StmtInner::Jump(JumpStmt { target: x.target.clone() }),
        StmtInner::Label(x) => StmtInner::Label(LabelStmt { label: x.label.clone() }),
        StmtInner::Call(x) => StmtInner::Call(
            CallStmt {
                func_name: x.func_name.clone(),
                result: match &x.result {
                    Some(d) => Some(d.clone()),
                    None => None,
                },
                args: resolve_all(aliases, &x.args),
            },
        ),
        StmtInner::Return(x) => StmtInner::Return(ReturnStmt { val: resolve_opt(aliases, &x.val) }),
        StmtInner::Phi(x) => {
            let mut inc: Vec<(BlockLabel, Operand)> = Vec::new();
            let mut k: usize = 0;
            while k < x.incomings.len()
                invariant
                    k <= x.incomings@.len(),
                    inc@.len() == k,
                    forall|j: int| 0 <= j < k ==> (#[trigger] inc@[j]).0 == x.incomings@[j].0 && read_after(
                        x.incomings@[j].1,
                        inc@[j].1,
                        alias_keys(aliases@),
                        alias_vals(aliases@),
                    ),
                    forall|j: int| 0 <= j < k ==> read_exact(x.incomings@[j].1, #[trigger] inc@[j].1, aliases@),
                decreases x.incomings@.len() - k,
            {
                let e = &x.incomings[k];
                inc.push((e.0.clone(), resolve_alias(aliases, &e.1)));
                k += 1;
            }
            StmtInner::Phi(PhiStmt { dst: x.dst.clone(), incomings: inc })
        },
    };
    Stmt { inner }
}

impl PhiPlacement {
    /// Appends the incoming value `val` from the block labelled `label` to PHI `k` of `block`.
    pub fn push_incoming(&mut self, block: usize, k: usize, label: BlockLabel, val: Operand)
        requires
            block < old(self).spec_nodes().len(),
            k < old(self).spec_nodes()[block as int].len(),
        ensures
            final(self).spec_nodes().len() == old(self).spec_nodes().len(),
            forall|b: int| 0 <= b < old(self).spec_nodes().len() && b != block ==> #[trigger] final(self).spec_nodes()[b] == old(self).spec_nodes()[b],
            final(self).spec_nodes()[block as int].len() == old(self).spec_nodes()[block as int].len(),
            forall|j: int| 0 <= j < old(self).spec_nodes()[block as int].len() && j != k ==> #[trigger] final(self).spec_nodes()[block as int][j] == old(self).spec_nodes()[block as int][j],
            final(self).spec_nodes()[block as int][k as int].var == old(self).spec_nodes()[block as int][k as int].var,
            final(self).spec_nodes()[block as int][k as int].dst == old(self).spec_nodes()[block as int][k as int].dst,
            final(self).spec_nodes()[block as int][k as int].incomings@ == old(self).spec_nodes()[block as int][k as int].incomings@.push((label, val)),
    {
        let ghost before = self.spec_nodes();
        let mut row: Vec<PhiInfo> = Vec::new();
        std::mem::swap(&mut row, &mut self.nodes[block]);
        assert(row@ == before[block as int]);
        let mut phi = PhiInfo { var: 0, dst: Operand::integer(0), incomings: Vec::new() };
        std::mem::swap(&mut phi, &mut row[k]);
        phi.incomings.push((label, val));
        let ghost changed = phi;
        std::mem::swap(&mut phi, &mut row[k]);
        let ghost new_row = row@;
        self.nodes.set(block, row);
        assert(self.spec_nodes() =~= before.update(block as int, new_row));
    }
}

/// Renames the promoted registers along the dominator tree.
struct Renamer<'a> {
    blocks: &'a [BasicBlock],
    cfg: &'a Cfg,
    dom_info: &'a DominatorInfo,
    phi_placement: PhiPlacement,
    promoted: Vec<usize>,
    var_stack: Vec<Vec<Operand>>,
    alias_map: Vec<(usize, Operand)>,
    rewritten: Vec<Vec<Stmt>>,
    visited: Vec<bool>,
    initial_phis: Ghost<Seq<Seq<PhiInfo>>>,
    entry: Ghost<Seq<RenameState>>,
    parent: Ghost<Seq<int>>,
}

/// Every incoming value of the PHIs comes from a predecessor: its label is
/// the label of a block that has the PHI's block among its successors.
pub open spec fn incomings_from_preds(nodes: Seq<Seq<PhiInfo>>, labels: Seq<BlockLabel>, succs: Seq<Seq<usize>>) -> bool {
    forall|b: int, k: int, j: int|
        0 <= b < nodes.len() && 0 <= k < nodes[b].len() && 0 <= j < nodes[b][k].incomings@.len() ==> label_of_pred(
            labels,
            succs,
            b,
            (#[trigger] nodes[b][k].incomings@[j]).0,
        )
}

/// `l` is the label of a block that has `b` among its successors.
pub open spec fn label_of_pred(labels: Seq<BlockLabel>, succs: Seq<Seq<usize>>, b: int, l: BlockLabel) -> bool {
    exists|p: int| 0 <= p < succs.len() && succs[p].contains(b as usize) && labels[p] == l
}

/// The PHIs keep the register and value that placement gave them.
pub open spec fn same_phi_shape(nodes: Seq<Seq<PhiInfo>>, init: Seq<Seq<PhiInfo>>) -> bool {
    &&& nodes.len() == init.len()
    &&& forall|b: int| 0 <= b < nodes.len() ==> (#[trigger] nodes[b]).len() == init[b].len()
    &&& forall|b: int, k: int|
        0 <= b < nodes.len() && 0 <= k < nodes[b].len() ==> (#[trigger] nodes[b][k]).var == init[b][k].var
            && nodes[b][k].dst == init[b][k].dst
}

/// The number of edges into `s` from the blocks below `m` marked in `visited`.
pub open spec fn edges_into(succs: Seq<Seq<usize>>, visited: Seq<bool>, s: usize, m: int) -> nat
    decreases m,
{
    if m <= 0 {
        0
    } else {
        edges_into(succs, visited, s, m - 1) + if visited[m - 1] {
            count_in(succs[m - 1], s)
        } else {
            0
        }
    }
}

/// Marking one more block adds its edges.
proof fn lemma_edges_into_mark(succs: Seq<Seq<usize>>, visited: Seq<bool>, b: int, s: usize, m: int)
    requires
        0 <= b < visited.len(),
        !visited[b],
        m <= visited.len(),
    ensures
        edges_into(succs, visited.update(b, true), s, m) == edges_into(succs, visited, s, m) + if b < m {
            count_in(succs[b], s)
        } else {
            0
        },
    decreases m,
{
    if m > 0 {
        lemma_edges_into_mark(succs, visited, b, s, m - 1);
    }
}

/// With no block marked there are no edges.
proof fn lemma_edges_into_none(succs: Seq<Seq<usize>>, visited: Seq<bool>, s: usize, m: int)
    requires
        m <= visited.len(),
        forall|b: int| 0 <= b < m ==> !#[trigger] visited[b],
    ensures
        edges_into(succs, visited, s, m) == 0,
    decreases m,
{
    if m > 0 {
        lemma_edges_into_none(succs, visited, s, m - 1);
    }
}

/// With every block marked, the edges into `s` are its predecessor list.
proof fn lemma_edges_into_all(succs: Seq<Seq<usize>>, visited: Seq<bool>, s: usize, m: int)
    requires
        m <= visited.len(),
        m <= succs.len(),
        forall|b: int| 0 <= b < m ==> #[trigger] visited[b],
    ensures
        edges_into(succs, visited, s, m) == pred_list(succs, s, m).len(),
    decreases m,
{
    if m > 0 {
        lemma_edges_into_all(succs, visited, s, m - 1);
        assert(pred_list(succs, s, m).len() == pred_list(succs, s, m - 1).len() + count_in(succs[m - 1], s));
    }
}

/// Each PHI has one incoming value for each edge into its block from a
/// block marked in `visited`.
pub open spec fn incomings_counted(nodes: Seq<Seq<PhiInfo>>, succs: Seq<Seq<usize>>, visited: Seq<bool>) -> bool {
    forall|s: int, k: int|
        0 <= s < nodes.len() && 0 <= k < nodes[s].len() ==> (#[trigger] nodes[s][k]).incomings@.len() == edges_into(
            succs,
            visited,
            s as usize,
            visited.len() as int,
        )
}

impl<'a> Renamer<'a> {
    spec fn n(&self) -> nat {
        self.blocks@.len()
    }

    spec fn stacks(&self) -> Seq<Seq<Operand>> {
        self.var_stack@.map_values(|v: Vec<Operand>| v@)
    }

    /// The renaming state that the stacks and aliases hold.
    spec fn state(&self) -> RenameState {
        RenameState { tops: tops_of(self.stacks()), aliases: self.alias_map@ }
    }

    /// The registers that the removed loads write.
    spec fn loaded(&self) -> Set<usize> {
        loaded_regs(self.blocks@, self.promoted@)
    }

    /// The values that may take their place.
    spec fn values(&self) -> Set<Operand> {
        promoted_values(self.blocks@, self.promoted@, self.initial_phis@)
    }

    spec fn wf(&self) -> bool {
        let n = self.n();
        let nodes = self.phi_placement.spec_nodes();
        &&& self.cfg.wf()
        &&& self.cfg.spec_graph().succ_seqs().len() == n
        &&& self.cfg.spec_graph().succ_seqs() == block_succs(self.blocks@)
        &&& self.cfg.spec_labels() == self.blocks@.map_values(|b: BasicBlock| b.label)
        &&& self.dom_info.describes(self.cfg.spec_graph())
        &&& nodes.len() == n
        &&& same_phi_shape(nodes, self.initial_phis@)
        &&& incomings_from_preds(nodes, self.cfg.spec_labels(), self.cfg.spec_graph().succ_seqs())
        &&& self.var_stack@.len() == self.promoted@.len()
        &&& self.rewritten@.len() == n
        &&& self.visited@.len() == n
        &&& forall|b: int| 0 <= b < n && #[trigger] self.visited@[b] ==> renamed_from(
            self.rewritten@[b]@,
            self.blocks@[b].stmts@,
            self.promoted@,
            self.loaded(),
            self.values(),
        )
        &&& forall|b: int| 0 <= b < n && !#[trigger] self.visited@[b] ==> self.rewritten@[b]@.len() == 0
        &&& self.entry@.len() == n
        &&& self.parent@.len() == n
        &&& forall|b: int| 0 <= b < n && #[trigger] self.visited@[b] ==> renamed_ok(
            self.rewritten@[b]@,
            self.blocks@[b].stmts@,
            self.promoted@,
            self.entry@[b],
            self.initial_phis@[b],
        )
        &&& forall|b: int| 0 <= b < n && #[trigger] self.visited@[b] ==> entered_ok(
            self.blocks@,
            self.initial_phis@,
            self.promoted@,
            self.dom_info.spec_rows(),
            self.parent@,
            self.entry@,
            self.visited@,
            b,
        )
        &&& alias_keys(self.alias_map@).subset_of(self.loaded())
        &&& alias_vals(self.alias_map@).subset_of(self.values())
        &&& forall|i: int, j: int|
            0 <= i < self.stacks().len() && 0 <= j < self.stacks()[i].len() ==> self.values().contains(
                #[trigger] self.stacks()[i][j],
            )
        &&& forall|b: int, k: int, j: int|
            0 <= b < nodes.len() && 0 <= k < nodes[b].len() && 0 <= j < nodes[b][k].incomings@.len()
                ==> self.values().contains((#[trigger] nodes[b][k].incomings@[j]).1)
    }

    /// The position of register `v` among the promoted ones.
    fn promoted_index(&self, v: usize) -> (r: Option<usize>)
        ensures
            r matches Some(i) ==> i < self.promoted@.len() && self.promoted@[i as int] == v,
            r matches Some(i) ==> first_index(self.promoted@, v) == i,
            r is None ==> !self.promoted@.contains(v),
    {
        let mut i: usize = 0;
        while i < self.promoted.len()
            invariant
                i <= self.promoted@.len(),
                forall|j: int| 0 <= j < i ==> self.promoted@[j] != v,
            decreases self.promoted@.len() - i,
        {
            if self.promoted[i] == v {
                proof {
                    lemma_first_index(self.promoted@, v, i as int);
                }
                return Some(i);
            }
            i += 1;
        }
        None
    }

    /// The value register `promoted[i]` holds now, or 0 if nothing was stored.
    fn current_value(&self, i: usize) -> (r: Operand)
        requires
            self.wf(),
            i < self.var_stack@.len(),
        ensures
            self.values().contains(r),
            same_operand(r, value_of(self.state(), i as int)),
    {
        let stack = &self.var_stack[i];
        if stack.len() > 0 {
            let top = &stack[stack.len() - 1];
            assert(self.stacks()[i as int][stack@.len() - 1] == *top);
            assert(self.state().tops[i as int] == Some(*top));
            let r = resolve_alias(&self.alias_map, top);
            proof {
                if same_operand(r, *top) {
                    lemma_promoted_values_copy(r, *top, self.blocks@, self.promoted@, self.initial_phis@);
                }
            }
            r
        } else {
            assert(self.state().tops[i as int] is None);
            Operand::integer(0)
        }
    }
}

/// The state of renaming at a point of a block: for each promoted register
/// (by its position), the value stored through it last, if any; and the
/// values recorded for the registers that removed loads wrote, in order.
pub struct RenameState {
    pub tops: Seq<Option<Operand>>,
    pub aliases: Seq<(usize, Operand)>,
}

/// The renaming state with nothing stored and nothing recorded.
pub open spec fn empty_state(n: nat) -> RenameState {
    RenameState { tops: Seq::new(n, |i: int| None), aliases: Seq::empty() }
}

/// The first position of `x` in `p`.
pub open spec fn first_index(p: Seq<usize>, x: usize) -> int {
    choose|i: int| 0 <= i < p.len() && p[i] == x && forall|j: int| 0 <= j < i ==> p[j] != x
}

/// What reading promoted register `i` (by position) gives in `st`: the value
/// stored through it last, read through the aliases, or 0 if none was.
pub open spec fn value_of(st: RenameState, i: int) -> Operand {
    match st.tops[i] {
        Some(v) => read_through(st.aliases, v),
        None => Operand::Integer(Integer { value: 0 }),
    }
}

/// The state after statement `s`: a store through a promoted register makes
/// the stored value (read through the aliases) its value; a load through one
/// records the register's value for the loaded register.
pub open spec fn rename_step(st: RenameState, s: Stmt, promoted: Seq<usize>) -> RenameState {
    match s.inner {
        StmtInner::Store(x) => if is_promoted(promoted, x.ptr.spec_vreg()) {
            RenameState {
                tops: st.tops.update(first_index(promoted, x.ptr.spec_vreg().unwrap()), Some(read_through(st.aliases, x.src))),
                aliases: st.aliases,
            }
        } else {
            st
        },
        StmtInner::Load(x) => if is_promoted(promoted, x.ptr.spec_vreg()) && x.dst.spec_vreg() is Some {
            RenameState {
                tops: st.tops,
                aliases: st.aliases.push(
                    (x.dst.spec_vreg().unwrap(), value_of(st, first_index(promoted, x.ptr.spec_vreg().unwrap()))),
                ),
            }
        } else {
            st
        },
        _ => st,
    }
}

/// The state after the first `n` statements of `stmts`, from `st`.
pub open spec fn state_after(stmts: Seq<Stmt>, promoted: Seq<usize>, st: RenameState, n: int) -> RenameState
    decreases n,
{
    if n <= 0 {
        st
    } else {
        rename_step(state_after(stmts, promoted, st, n - 1), stmts[n - 1], promoted)
    }
}

/// The statements among the first `n` of `stmts` that stay, each with the
/// state before it.
pub open spec fn kept_with_states(stmts: Seq<Stmt>, promoted: Seq<usize>, st: RenameState, n: int) -> Seq<(Stmt, RenameState)>
    decreases n,
{
    if n <= 0 {
        Seq::empty()
    } else {
        let k = kept_with_states(stmts, promoted, st, n - 1);
        if kept(stmts[n - 1], promoted) {
            k.push((stmts[n - 1], state_after(stmts, promoted, st, n - 1)))
        } else {
            k
        }
    }
}

/// `out` holds the statements of `stmts` that stay, in order, each with its
/// reads read through the aliases of the state before it, from `st`.
pub open spec fn renamed_exactly(out: Seq<Stmt>, stmts: Seq<Stmt>, promoted: Seq<usize>, st: RenameState) -> bool {
    let k = kept_with_states(stmts, promoted, st, stmts.len() as int);
    &&& out.len() == k.len()
    &&& forall|i: int| 0 <= i < out.len() ==> same_but_reads(k[i].0, #[trigger] out[i], k[i].1.aliases)
}

/// The state after the PHIs `phis` of a block: each makes its register its
/// variable's value.
pub open spec fn phis_state(st: RenameState, phis: Seq<PhiInfo>, promoted: Seq<usize>) -> RenameState
    decreases phis.len(),
{
    if phis.len() == 0 {
        st
    } else {
        let prev = phis_state(st, phis.drop_last(), promoted);
        if promoted.contains(phis.last().var) {
            RenameState {
                tops: prev.tops.update(first_index(promoted, phis.last().var), Some(phis.last().dst)),
                aliases: prev.aliases,
            }
        } else {
            prev
        }
    }
}

/// The state at the end of block `b`, entered in `entry`.
pub open spec fn exit_state(blocks: Seq<BasicBlock>, phis: Seq<Seq<PhiInfo>>, promoted: Seq<usize>, entry: RenameState, b: int) -> RenameState {
    state_after(blocks[b].stmts@, promoted, phis_state(entry, phis[b], promoted), blocks[b].stmts@.len() as int)
}

/// How many dominators each block has, by the dominator sets `rows`.
pub open spec fn dom_levels(rows: Seq<Seq<bool>>) -> Seq<nat> {
    rows.map_values(|r: Seq<bool>| count_true(r))
}

/// How block `b` is entered: with nothing stored and nothing recorded when
/// `parent[b]` is -1, which only a block without an immediate dominator has; else in the state in which block `parent[b]`, an
/// immediate dominator of `b`, is left.
pub open spec fn entered_from(
    blocks: Seq<BasicBlock>,
    phis: Seq<Seq<PhiInfo>>,
    promoted: Seq<usize>,
    rows: Seq<Seq<bool>>,
    parent: Seq<int>,
    entry: Seq<RenameState>,
    b: int,
) -> bool {
    &&& -1 <= parent[b] < blocks.len()
    &&& parent[b] == -1 ==> entry[b] == empty_state(promoted.len()) && !has_idom(rows, dom_levels(rows), b)
    &&& parent[b] >= 0 ==> is_idom_choice(rows, dom_levels(rows), b, parent[b]) && entry[b] == exit_state(
        blocks,
        phis,
        promoted,
        entry[parent[b]],
        parent[b],
    )
}

/// The levels of a dominator information are those of its dominator sets.
proof fn lemma_levels(dom: &DominatorInfo, g: Graph)
    requires
        dom.describes(g),
    ensures
        dom.spec_levels() == dom_levels(dom.spec_rows()),
{
    assert(dom.spec_levels() =~= dom_levels(dom.spec_rows()));
}

/// `out` is `stmts` renamed exactly, entered in `ent`, after the PHIs `phis`.
#[verifier::opaque]
spec fn renamed_ok(out: Seq<Stmt>, stmts: Seq<Stmt>, promoted: Seq<usize>, ent: RenameState, phis: Seq<PhiInfo>) -> bool {
    renamed_exactly(out, stmts, promoted, phis_state(ent, phis, promoted))
}

/// Block `b` was entered as `entered_from` says, from a block renamed before it.
#[verifier::opaque]
spec fn entered_ok(
    blocks: Seq<BasicBlock>,
    phis: Seq<Seq<PhiInfo>>,
    promoted: Seq<usize>,
    rows: Seq<Seq<bool>>,
    parent: Seq<int>,
    entry: Seq<RenameState>,
    visited: Seq<bool>,
    b: int,
) -> bool {
    &&& entered_from(blocks, phis, promoted, rows, parent, entry, b)
    &&& parent[b] >= 0 ==> visited[parent[b]]
}

/// What the PHI for register `x` takes from a block left in state `st`: the
/// register's value there, or 0 when `x` is not promoted.
pub open spec fn incoming_value(st: RenameState, promoted: Seq<usize>, x: usize) -> Operand {
    if promoted.contains(x) {
        value_of(st, first_index(promoted, x))
    } else {
        Operand::Integer(Integer { value: 0 })
    }
}

/// `inc` is what a PHI for register `x` in block `s` takes from block `p`:
/// `p` has `s` among its successors, and `inc` is `p`'s label with (a copy
/// of) the value of `x` at the end of `p`, entered in `entry[p]`.
pub open spec fn incoming_from(
    blocks: Seq<BasicBlock>,
    phis: Seq<Seq<PhiInfo>>,
    promoted: Seq<usize>,
    entry: Seq<RenameState>,
    s: int,
    x: usize,
    inc: (BlockLabel, Operand),
    p: int,
) -> bool {
    &&& 0 <= p < blocks.len()
    &&& block_succs(blocks)[p].contains(s as usize)
    &&& blocks[p].label == inc.0
    &&& same_operand(inc.1, incoming_value(exit_state(blocks, phis, promoted, entry[p], p), promoted, x))
}

/// `inc` is what a PHI for register `x` in block `s` takes from some block
/// marked in `visited`, as `incoming_from` says.
pub open spec fn from_visited(
    blocks: Seq<BasicBlock>,
    phis: Seq<Seq<PhiInfo>>,
    promoted: Seq<usize>,
    entry: Seq<RenameState>,
    visited: Seq<bool>,
    s: int,
    x: usize,
    inc: (BlockLabel, Operand),
) -> bool {
    exists|p: int| 0 <= p < visited.len() && visited[p] && #[trigger] incoming_from(blocks, phis, promoted, entry, s, x, inc, p)
}

/// Each incoming value of each PHI in `nodes` comes, as `incoming_from`
/// says, from a block marked in `visited`.
pub open spec fn incomings_exact(
    nodes: Seq<Seq<PhiInfo>>,
    blocks: Seq<BasicBlock>,
    phis: Seq<Seq<PhiInfo>>,
    promoted: Seq<usize>,
    entry: Seq<RenameState>,
    visited: Seq<bool>,
) -> bool {
    forall|s: int, k: int, j: int|
        0 <= s < nodes.len() && 0 <= k < nodes[s].len() && 0 <= j < nodes[s][k].incomings@.len() ==> from_visited(
            blocks,
            phis,
            promoted,
            entry,
            visited,
            s,
            nodes[s][k].var,
            #[trigger] nodes[s][k].incomings@[j],
        )
}

proof fn lemma_incomings_exact_mark(
    nodes: Seq<Seq<PhiInfo>>,
    blocks: Seq<BasicBlock>,
    phis: Seq<Seq<PhiInfo>>,
    promoted: Seq<usize>,
    entry: Seq<RenameState>,
    visited: Seq<bool>,
    b: int,
)
    requires
        incomings_exact(nodes, blocks, phis, promoted, entry, visited),
        0 <= b < visited.len(),
    ensures
        incomings_exact(nodes, blocks, phis, promoted, entry, visited.update(b, true)),
{
    let v2 = visited.update(b, true);
    assert forall|s: int, k: int, j: int| 0 <= s < nodes.len() && 0 <= k < nodes[s].len() && 0 <= j < nodes[s][k].incomings@.len()
        implies from_visited(blocks, phis, promoted, entry, v2, s, nodes[s][k].var, #[trigger] nodes[s][k].incomings@[j]) by {
        let inc = nodes[s][k].incomings@[j];
        assert(from_visited(blocks, phis, promoted, entry, visited, s, nodes[s][k].var, inc));
        let p = choose|p: int| 0 <= p < visited.len() && visited[p] && #[trigger] incoming_from(
            blocks,
            phis,
            promoted,
            entry,
            s,
            nodes[s][k].var,
            inc,
            p,
        );
        assert(v2[p]);
    }
}

proof fn lemma_incomings_exact_entry(
    nodes: Seq<Seq<PhiInfo>>,
    blocks: Seq<BasicBlock>,
    phis: Seq<Seq<PhiInfo>>,
    promoted: Seq<usize>,
    entry: Seq<RenameState>,
    visited: Seq<bool>,
    b: int,
    e: RenameState,
)
    requires
        incomings_exact(nodes, blocks, phis, promoted, entry, visited),
        0 <= b < visited.len(),
        !visited[b],
        entry.len() == visited.len(),
    ensures
        incomings_exact(nodes, blocks, phis, promoted, entry.update(b, e), visited),
{
    let e2 = entry.update(b, e);
    assert forall|s: int, k: int, j: int| 0 <= s < nodes.len() && 0 <= k < nodes[s].len() && 0 <= j < nodes[s][k].incomings@.len()
        implies from_visited(blocks, phis, promoted, e2, visited, s, nodes[s][k].var, #[trigger] nodes[s][k].incomings@[j]) by {
        let inc = nodes[s][k].incomings@[j];
        assert(from_visited(blocks, phis, promoted, entry, visited, s, nodes[s][k].var, inc));
        let p = choose|p: int| 0 <= p < visited.len() && visited[p] && #[trigger] incoming_from(
            blocks,
            phis,
            promoted,
            entry,
            s,
            nodes[s][k].var,
            inc,
            p,
        );
        assert(e2[p] == entry[p]);
        assert(incoming_from(blocks, phis, promoted, e2, s, nodes[s][k].var, inc, p));
    }
}

proof fn lemma_incomings_exact_push(
    before: Seq<Seq<PhiInfo>>,
    after: Seq<Seq<PhiInfo>>,
    blocks: Seq<BasicBlock>,
    phis: Seq<Seq<PhiInfo>>,
    promoted: Seq<usize>,
    entry: Seq<RenameState>,
    visited: Seq<bool>,
    s: int,
    k: int,
    b: int,
    inc: (BlockLabel, Operand),
)
    requires
        incomings_exact(before, blocks, phis, promoted, entry, visited),
        0 <= s < before.len(),
        0 <= k < before[s].len(),
        0 <= b < visited.len(),
        visited[b],
        after.len() == before.len(),
        forall|x: int| 0 <= x < before.len() && x != s ==> #[trigger] after[x] == before[x],
        after[s].len() == before[s].len(),
        forall|j: int| 0 <= j < before[s].len() && j != k ==> #[trigger] after[s][j] == before[s][j],
        after[s][k].var == before[s][k].var,
        after[s][k].incomings@ == before[s][k].incomings@.push(inc),
        incoming_from(blocks, phis, promoted, entry, s, before[s][k].var, inc, b),
    ensures
        incomings_exact(after, blocks, phis, promoted, entry, visited),
{
    assert forall|x: int, y: int, z: int| 0 <= x < after.len() && 0 <= y < after[x].len() && 0 <= z < after[x][y].incomings@.len()
        implies from_visited(blocks, phis, promoted, entry, visited, x, after[x][y].var, #[trigger] after[x][y].incomings@[z]) by {
        if x != s {
            assert(after[x] == before[x]);
            assert(from_visited(blocks, phis, promoted, entry, visited, x, before[x][y].var, before[x][y].incomings@[z]));
        } else if y != k {
            assert(after[x][y] == before[x][y]);
            assert(from_visited(blocks, phis, promoted, entry, visited, x, before[x][y].var, before[x][y].incomings@[z]));
        } else if z < before[x][y].incomings@.len() {
            assert(after[x][y].incomings@[z] == before[x][y].incomings@[z]);
            assert(from_visited(blocks, phis, promoted, entry, visited, x, before[x][y].var, before[x][y].incomings@[z]));
        } else {
            assert(after[x][y].incomings@[z] == inc);
            assert(incoming_from(blocks, phis, promoted, entry, x, after[x][y].var, after[x][y].incomings@[z], b));
        }
    }
}

/// Each of the first `t` of `children` is renamed in `visited`.
pub open spec fn children_renamed(children: Seq<usize>, visited: Seq<bool>, t: int) -> bool {
    forall|k: int| #![trigger children[k]] 0 <= k < t ==> visited[children[k] as int]
}

/// Every visited block outside `open` (the blocks whose subtrees are being
/// renamed) has all its children in the dominator tree visited.
pub open spec fn closed_below(children: Seq<Seq<usize>>, visited: Seq<bool>, open: Set<int>) -> bool {
    forall|x: int, k: int|
        0 <= x < visited.len() && visited[x] && !open.contains(x) && 0 <= k < children[x].len() ==> visited[#[trigger] children[x][k] as int]
}

/// When every root of the dominator tree is visited, and every visited block
/// has its children visited, every block is visited.
proof fn lemma_tree_covered(dom: DominatorInfo, g: Graph, visited: Seq<bool>, b: int)
    requires
        dom.describes(g),
        dom.spec_len() <= usize::MAX,
        visited.len() == dom.spec_len(),
        0 <= b < dom.spec_len(),
        closed_below(dom.spec_children(), visited, Set::<int>::empty()),
        forall|k: int| 0 <= k < dom.spec_roots().len() ==> visited[#[trigger] dom.spec_roots()[k] as int],
    ensures
        visited[b],
    decreases dom.spec_levels()[b],
{
    let n = dom.spec_len();
    if dom.spec_roots().contains(b as usize) {
        let k = choose|k: int| 0 <= k < dom.spec_roots().len() && dom.spec_roots()[k] == b as usize;
        assert(visited[dom.spec_roots()[k] as int]);
    } else {
        assert(has_idom(dom.spec_rows(), dom.spec_levels(), b));
        let (p, k) = choose|p: int, k: int|
            0 <= p < n && 0 <= k < dom.spec_children()[p].len() && #[trigger] dom.spec_children()[p][k] == b as usize;
        assert(dom.spec_levels()[p] < dom.spec_levels()[dom.spec_children()[p][k] as int]);
        lemma_tree_covered(dom, g, visited, p);
        assert(visited[dom.spec_children()[p][k] as int]);
    }
}

/// The blocks marked in `visited` keep how they were entered.
pub open spec fn keeps_entries(visited: Seq<bool>, e0: Seq<RenameState>, p0: Seq<int>, e1: Seq<RenameState>, p1: Seq<int>) -> bool {
    forall|x: int| 0 <= x < visited.len() && #[trigger] visited[x] ==> e1[x] == e0[x] && p1[x] == p0[x]
}

/// Two alias lists that record the same registers with copies of the same values.
pub open spec fn same_aliases(a: Seq<(usize, Operand)>, b: Seq<(usize, Operand)>) -> bool {
    &&& a.len() == b.len()
    &&& forall|k: int| 0 <= k < a.len() ==> (#[trigger] a[k]).0 == b[k].0 && same_operand(a[k].1, b[k].1)
}

/// Two states that agree up to copies.
pub open spec fn same_state(a: RenameState, b: RenameState) -> bool {
    &&& a.tops.len() == b.tops.len()
    &&& forall|i: int| 0 <= i < a.tops.len() ==> same_opt_operand(#[trigger] a.tops[i], b.tops[i])
    &&& same_aliases(a.aliases, b.aliases)
}

/// The tops of the stacks.
pub open spec fn tops_of(stacks: Seq<Seq<Operand>>) -> Seq<Option<Operand>> {
    Seq::new(stacks.len(), |i: int| if stacks[i].len() > 0 { Some(stacks[i].last()) } else { None })
}

proof fn lemma_first_index(p: Seq<usize>, x: usize, i: int)
    requires
        0 <= i < p.len(),
        p[i] == x,
        forall|j: int| 0 <= j < i ==> p[j] != x,
    ensures
        first_index(p, x) == i,
{
    let c = first_index(p, x);
    assert(0 <= c < p.len() && p[c] == x && forall|j: int| 0 <= j < c ==> p[j] != x);
    if c < i {
        assert(p[c] != x);
    } else if c > i {
        assert(p[i] != x);
    }
}

proof fn lemma_last_alias_same(a: Seq<(usize, Operand)>, b: Seq<(usize, Operand)>, x: usize)
    requires
        same_aliases(a, b),
    ensures
        same_opt_operand(last_alias(a, x), last_alias(b, x)),
    decreases a.len(),
{
    if a.len() > 0 {
        assert(a.last() == a[a.len() - 1]);
        assert(b.last() == b[b.len() - 1]);
        if a.last().0 != x {
            let (da, db) = (a.drop_last(), b.drop_last());
            assert forall|k: int| 0 <= k < da.len() implies (#[trigger] da[k]).0 == db[k].0 && same_operand(da[k].1, db[k].1) by {
                assert(da[k] == a[k] && db[k] == b[k]);
            }
            lemma_last_alias_same(da, db, x);
        }
    }
}

/// Copies read through lists that agree up to copies read as copies.
proof fn lemma_resolved_same(a: Seq<(usize, Operand)>, b: Seq<(usize, Operand)>, o1: Operand, o2: Operand, fuel: nat)
    requires
        same_aliases(a, b),
        same_operand(o1, o2),
    ensures
        same_operand(resolved(a, o1, fuel), resolved(b, o2, fuel)),
    decreases fuel,
{
    if fuel > 0 {
        match o1 {
            Operand::Local(l) => {
                assert(o1 == o2);
                lemma_last_alias_same(a, b, l.index);
                match (last_alias(a, l.index), last_alias(b, l.index)) {
                    (Some(v1), Some(v2)) => {
                        lemma_resolved_same(a, b, v1, v2, (fuel - 1) as nat);
                    },
                    _ => {},
                }
            },
            _ => {
                assert(resolved(a, o1, fuel) == o1);
                assert(resolved(b, o2, fuel) == o2);
            },
        }
    }
}

proof fn lemma_read_through_same(a: Seq<(usize, Operand)>, b: Seq<(usize, Operand)>, o1: Operand, o2: Operand)
    requires
        same_aliases(a, b),
        same_operand(o1, o2),
    ensures
        same_operand(read_through(a, o1), read_through(b, o2)),
{
    lemma_resolved_same(a, b, o1, o2, a.len());
}

/// A copy of an operand read exactly through `a` is one read exactly through
/// a list that agrees with `a`.
proof fn lemma_read_exact_transfer(o: Operand, r: Operand, a: Seq<(usize, Operand)>, b: Seq<(usize, Operand)>)
    requires
        same_aliases(a, b),
        read_exact(o, r, a),
    ensures
        read_exact(o, r, b),
{
    lemma_read_through_same(a, b, o, o);
    lemma_same_operand_props(r, read_through(a, o), read_through(b, o));
}

proof fn lemma_same_but_reads_transfer(s: Stmt, r: Stmt, a: Seq<(usize, Operand)>, b: Seq<(usize, Operand)>)
    requires
        same_aliases(a, b),
        same_but_reads(s, r, a),
    ensures
        same_but_reads(s, r, b),
{
    match (s.inner, r.inner) {
        (StmtInner::Store(x), StmtInner::Store(y)) => {
            lemma_read_exact_transfer(x.src, y.src, a, b);
        },
        (StmtInner::Gep(x), StmtInner::Gep(y)) => {
            lemma_read_exact_transfer(x.base_ptr, y.base_ptr, a, b);
            lemma_read_exact_transfer(x.index, y.index, a, b);
        },
        (StmtInner::BiOp(x), StmtInner::BiOp(y)) => {
            lemma_read_exact_transfer(x.left, y.left, a, b);
            lemma_read_exact_transfer(x.right, y.right, a, b);
        },
        (StmtInner::Cmp(x), StmtInner::Cmp(y)) => {
            lemma_read_exact_transfer(x.left, y.left, a, b);
            lemma_read_exact_transfer(x.right, y.right, a, b);
        },
        (StmtInner::CJump(x), StmtInner::CJump(y)) => {
            lemma_read_exact_transfer(x.cond, y.cond, a, b);
        },
        (StmtInner::Call(x), StmtInner::Call(y)) => {
            assert forall|k: int| 0 <= k < x.args@.len() implies read_exact(#[trigger] x.args@[k], y.args@[k], b) by {
                lemma_read_exact_transfer(x.args@[k], y.args@[k], a, b);
            }
        },
        (StmtInner::Return(x), StmtInner::Return(y)) => {
            if x.val is Some {
                lemma_read_exact_transfer(x.val.unwrap(), y.val.unwrap(), a, b);
            }
        },
        (StmtInner::Phi(x), StmtInner::Phi(y)) => {
            assert forall|k: int| 0 <= k < x.incomings@.len() implies (#[trigger] x.incomings@[k]).0 == y.incomings@[k].0
                && read_exact(x.incomings@[k].1, y.incomings@[k].1, b) by {
                lemma_read_exact_transfer(x.incomings@[k].1, y.incomings@[k].1, a, b);
            }
        },
        _ => {},
    }
}

proof fn lemma_same_state_refl(a: RenameState)
    ensures
        same_state(a, a),
{
    assert forall|i: int| 0 <= i < a.tops.len() implies same_opt_operand(#[trigger] a.tops[i], a.tops[i]) by {
        if a.tops[i] is Some {
            lemma_same_operand_props(a.tops[i].unwrap(), a.tops[i].unwrap(), a.tops[i].unwrap());
        }
    }
    assert forall|k: int| 0 <= k < a.aliases.len() implies (#[trigger] a.aliases[k]).0 == a.aliases[k].0 && same_operand(
        a.aliases[k].1,
        a.aliases[k].1,
    ) by {
        lemma_same_operand_props(a.aliases[k].1, a.aliases[k].1, a.aliases[k].1);
    }
}

proof fn lemma_value_of_same(a: RenameState, b: RenameState, i: int)
    requires
        same_state(a, b),
        0 <= i < a.tops.len(),
    ensures
        same_operand(value_of(a, i), value_of(b, i)),
{
    assert(same_opt_operand(a.tops[i], b.tops[i]));
    match (a.tops[i], b.tops[i]) {
        (Some(x), Some(y)) => {
            lemma_read_through_same(a.aliases, b.aliases, x, y);
        },
        _ => {},
    }
}

/// Each stack of `now` is the matching stack of `base` with as many values
/// pushed as `pushed` names its index.
pub open spec fn stacks_extend(now: Seq<Seq<Operand>>, base: Seq<Seq<Operand>>, pushed: Seq<usize>) -> bool {
    &&& now.len() == base.len()
    &&& forall|j: usize| j < now.len() ==> (#[trigger] now[j as int]).len() == base[j as int].len() + count_in(pushed, j)
            && now[j as int].subrange(0, base[j as int].len() as int) == base[j as int]
    &&& forall|k: int| 0 <= k < pushed.len() ==> #[trigger] pushed[k] < now.len()
}

/// `now` is `base` with entries appended.
pub open spec fn extends<T>(now: Seq<T>, base: Seq<T>) -> bool {
    now.len() >= base.len() && now.subrange(0, base.len() as int) == base
}

proof fn lemma_count_in_push(s: Seq<usize>, x: usize, j: usize)
    ensures
        count_in(s.push(x), j) == count_in(s, j) + if x == j { 1nat } else { 0nat },
{
    assert(s.push(x).drop_last() =~= s);
}

impl<'a> Renamer<'a> {
    /// Pushes `val` on the stack of `promoted[i]`, recording `i` in `pushed`.
    fn push_value(&mut self, i: usize, val: Operand, pushed: &mut Vec<usize>, Ghost(base): Ghost<Seq<Seq<Operand>>>)
        requires
            old(self).wf(),
            old(self).values().contains(val),
            i < old(self).var_stack@.len(),
            stacks_extend(old(self).stacks(), base, old(pushed)@),
        ensures
            final(self).wf(),
            stacks_extend(final(self).stacks(), base, final(pushed)@),
            final(self).stacks() == old(self).stacks().update(i as int, old(self).stacks()[i as int].push(val)),
            final(self).state() == (RenameState {
                tops: old(self).state().tops.update(i as int, Some(val)),
                aliases: old(self).state().aliases,
            }),
            final(self).blocks == old(self).blocks,
            final(self).cfg == old(self).cfg,
            final(self).dom_info == old(self).dom_info,
            final(self).promoted == old(self).promoted,
            final(self).phi_placement == old(self).phi_placement,
            final(self).initial_phis == old(self).initial_phis,
            final(self).alias_map == old(self).alias_map,
            final(self).rewritten == old(self).rewritten,
            final(self).visited == old(self).visited,
            final(self).entry == old(self).entry,
            final(self).parent == old(self).parent,
    {
        let ghost before = self.stacks();
        let ghost st_before = self.state();
        let ghost pb = pushed@;
        let mut st: Vec<Operand> = Vec::new();
        std::mem::swap(&mut st, &mut self.var_stack[i]);
        st.push(val);
        let ghost ns = st@;
        self.var_stack.set(i, st);
        pushed.push(i);
        proof {
            assert(self.stacks() =~= before.update(i as int, ns));
            assert(ns == before[i as int].push(val));
            assert(tops_of(self.stacks()) =~= st_before.tops.update(i as int, Some(val)));
            assert forall|j: usize| j < self.stacks().len() implies (#[trigger] self.stacks()[j as int]).len() == base[j as int].len() + count_in(pushed@, j)
                && self.stacks()[j as int].subrange(0, base[j as int].len() as int) == base[j as int] by {
                lemma_count_in_push(pb, i, j);
                assert(pushed@ == pb.push(i));
                assert(before[j as int].len() == base[j as int].len() + count_in(pb, j));
                assert(before[j as int].subrange(0, base[j as int].len() as int) == base[j as int]);
                if j == i {
                    assert(ns.subrange(0, base[j as int].len() as int) =~= before[j as int].subrange(0, base[j as int].len() as int));
                }
            }
        }
    }

    /// Pushes the value of each PHI of block `b` on its register's stack.
    fn push_block_phis(
        &mut self,
        b: usize,
        pushed: &mut Vec<usize>,
        Ghost(base): Ghost<Seq<Seq<Operand>>>,
        Ghost(st0): Ghost<RenameState>,
    )
        requires
            old(self).wf(),
            b < old(self).n(),
            stacks_extend(old(self).stacks(), base, old(pushed)@),
            same_state(old(self).state(), st0),
        ensures
            final(self).wf(),
            same_state(final(self).state(), phis_state(st0, old(self).initial_phis@[b as int], old(self).promoted@)),
            stacks_extend(final(self).stacks(), base, final(pushed)@),
            final(self).blocks == old(self).blocks,
            final(self).cfg == old(self).cfg,
            final(self).dom_info == old(self).dom_info,
            final(self).promoted == old(self).promoted,
            final(self).phi_placement == old(self).phi_placement,
            final(self).initial_phis == old(self).initial_phis,
            final(self).alias_map == old(self).alias_map,
            final(self).rewritten == old(self).rewritten,
            final(self).visited == old(self).visited,
            final(self).entry == old(self).entry,
            final(self).parent == old(self).parent,
    {
        let mut k: usize = 0;
        let ghost pp = self.phi_placement;
        let ghost init = self.initial_phis@[b as int];
        let ghost promoted = self.promoted@;
        proof {
            assert(init.take(0) =~= Seq::<PhiInfo>::empty());
        }
        while k < self.phi_placement.phis_at(b).len()
            invariant
                self.wf(),
                b < self.n(),
                self.phi_placement == pp,
                init == self.initial_phis@[b as int],
                promoted == self.promoted@,
                k <= init.len(),
                same_state(self.state(), phis_state(st0, init.take(k as int), promoted)),
                stacks_extend(self.stacks(), base, pushed@),
                self.blocks == old(self).blocks,
                self.cfg == old(self).cfg,
                self.dom_info == old(self).dom_info,
                self.promoted == old(self).promoted,
                self.phi_placement == old(self).phi_placement,
                self.initial_phis == old(self).initial_phis,
                self.alias_map == old(self).alias_map,
                self.rewritten == old(self).rewritten,
                self.visited == old(self).visited,
                self.entry == old(self).entry,
                self.parent == old(self).parent,
            decreases pp.spec_nodes()[b as int].len() - k,
        {
            let var = self.phi_placement.phis_at(b)[k].var;
            let ghost s0 = self.state();
            let ghost prev = phis_state(st0, init.take(k as int), promoted);
            proof {
                assert(init.take(k as int + 1).drop_last() =~= init.take(k as int));
                assert(init.take(k as int + 1).last() == init[k as int]);
                assert(init[k as int].var == var);
            }
            if let Some(i) = self.promoted_index(var) {
                let dst = self.phi_placement.phis_at(b)[k].dst.clone();
                assert(same_operand(dst, init[k as int].dst));
                self.push_value(i, dst, pushed, Ghost(base));
                proof {
                    let nxt = phis_state(st0, init.take(k as int + 1), promoted);
                    assert(nxt.tops == prev.tops.update(i as int, Some(init[k as int].dst)));
                    assert forall|t: int| 0 <= t < self.state().tops.len() implies same_opt_operand(
                        #[trigger] self.state().tops[t],
                        nxt.tops[t],
                    ) by {
                        if t != i {
                            assert(self.state().tops[t] == s0.tops[t]);
                        }
                    }
                }
            }
            k += 1;
        }
        assert(init.take(k as int) =~= init);
    }
}

proof fn lemma_incomings_push(
    before: Seq<Seq<PhiInfo>>,
    after: Seq<Seq<PhiInfo>>,
    labels: Seq<BlockLabel>,
    succs: Seq<Seq<usize>>,
    s: int,
    k: int,
    b: int,
)
    requires
        incomings_from_preds(before, labels, succs),
        0 <= s < before.len(),
        0 <= k < before[s].len(),
        0 <= b < succs.len(),
        succs[b].contains(s as usize),
        after.len() == before.len(),
        forall|x: int| 0 <= x < before.len() && x != s ==> #[trigger] after[x] == before[x],
        after[s].len() == before[s].len(),
        forall|j: int| 0 <= j < before[s].len() && j != k ==> #[trigger] after[s][j] == before[s][j],
        after[s][k].incomings@ == before[s][k].incomings@.push((labels[b], after[s][k].incomings@.last().1)),
    ensures
        incomings_from_preds(after, labels, succs),
{
    assert forall|x: int, y: int, z: int|
        0 <= x < after.len() && 0 <= y < after[x].len() && 0 <= z < after[x][y].incomings@.len() implies label_of_pred(
            labels,
            succs,
            x,
            (#[trigger] after[x][y].incomings@[z]).0,
        ) by {
        if x != s {
            assert(after[x] == before[x]);
            assert(after[x][y].incomings@[z] == before[x][y].incomings@[z]);
        } else if y != k {
            assert(after[x][y] == before[x][y]);
            assert(after[x][y].incomings@[z] == before[x][y].incomings@[z]);
        } else if z < before[x][y].incomings@.len() {
            assert(after[x][y].incomings@[z] == before[x][y].incomings@[z]);
        } else {
            assert(after[x][y].incomings@[z].0 == labels[b]);
        }
    }
}

proof fn lemma_kept_step(stmts: Seq<Stmt>, promoted: Seq<usize>, j: int)
    requires
        0 <= j < stmts.len(),
    ensures
        kept_stmts(stmts.take(j + 1), promoted) == if kept(stmts[j], promoted) {
            kept_stmts(stmts.take(j), promoted).push(stmts[j])
        } else {
            kept_stmts(stmts.take(j), promoted)
        },
{
    assert(stmts.take(j + 1).drop_last() =~= stmts.take(j));
}

proof fn lemma_same_stmt_same_but_uses(a: Stmt, b: Stmt, loaded: Set<usize>, vals: Set<Operand>)
    requires
        crate::ir::stmt::same_stmt(b, a),
        a.inner is Alloca,
    ensures
        same_but_uses(a, b, loaded, vals),
{
}

impl<'a> Renamer<'a> {
    /// Renames statement `j` of block `b`: an `alloca` of a promoted slot
    /// goes; a store through one goes and pushes the stored value on its
    /// register's stack; a load through one goes and makes its result an
    /// alias of the register's current value; every other statement stays,
    /// reading through the aliases.
    #[verifier::rlimit(30)]
    fn rename_one(
        &mut self,
        b: usize,
        j: usize,
        pushed: &mut Vec<usize>,
        Ghost(base): Ghost<Seq<Seq<Operand>>>,
        Ghost(a0): Ghost<Seq<(usize, Operand)>>,
        Ghost(st): Ghost<RenameState>,
    ) -> (r: Option<Stmt>)
        requires
            old(self).wf(),
            b < old(self).n(),
            j < old(self).blocks@[b as int].stmts@.len(),
            stacks_extend(old(self).stacks(), base, old(pushed)@),
            extends(old(self).alias_map@, a0),
            same_state(old(self).state(), st),
        ensures
            final(self).wf(),
            stacks_extend(final(self).stacks(), base, final(pushed)@),
            extends(final(self).alias_map@, a0),
            same_state(final(self).state(), rename_step(st, old(self).blocks@[b as int].stmts@[j as int], old(self).promoted@)),
            r is Some == kept(old(self).blocks@[b as int].stmts@[j as int], old(self).promoted@),
            r matches Some(x) ==> same_but_uses(old(self).blocks@[b as int].stmts@[j as int], x, old(self).loaded(), old(self).values()),
            r matches Some(x) ==> same_but_reads(old(self).blocks@[b as int].stmts@[j as int], x, st.aliases),
            final(self).blocks == old(self).blocks,
            final(self).cfg == old(self).cfg,
            final(self).dom_info == old(self).dom_info,
            final(self).promoted == old(self).promoted,
            final(self).phi_placement == old(self).phi_placement,
            final(self).initial_phis == old(self).initial_phis,
            final(self).rewritten == old(self).rewritten,
            final(self).visited == old(self).visited,
            final(self).entry == old(self).entry,
            final(self).parent == old(self).parent,
    {
        let blocks = self.blocks;
        let stmt = &blocks[b].stmts[j];
        let ghost promoted = self.promoted@;
        let ghost s0 = self.state();
        assert(blocks@[b as int].stmts@[j as int] == *stmt);
        match &stmt.inner {
            StmtInner::Alloca(a) => {
                let prom = match a.dst.vreg_index() {
                    Some(idx) => self.promoted_index(idx).is_some(),
                    None => false,
                };
                if prom {
                    None
                } else {
                    let c = stmt.clone();
                    proof {
                        lemma_same_stmt_same_but_uses(*stmt, c, self.loaded(), self.values());
                    }
                    Some(c)
                }
            },
            StmtInner::Store(x) => {
                let pi = match x.ptr.vreg_index() {
                    Some(idx) => self.promoted_index(idx),
                    None => None,
                };
                match pi {
                    Some(i) => {
                        let src = resolve_alias(&self.alias_map, &x.src);
                        proof {
                            if same_operand(src, x.src) {
                                assert(promoted.contains(promoted[i as int]));
                                assert(stores_value(blocks@[b as int].stmts@[j as int], promoted, src));
                            }
                            lemma_read_through_same(self.alias_map@, st.aliases, x.src, x.src);
                            lemma_same_operand_props(src, read_through(self.alias_map@, x.src), read_through(st.aliases, x.src));
                        }
                        self.push_value(i, src, pushed, Ghost(base));
                        proof {
                            let st2 = rename_step(st, *stmt, promoted);
                            assert(first_index(promoted, x.ptr.spec_vreg().unwrap()) == i);
                            assert forall|t: int| 0 <= t < self.state().tops.len() implies same_opt_operand(
                                #[trigger] self.state().tops[t],
                                st2.tops[t],
                            ) by {
                                if t != i {
                                    assert(self.state().tops[t] == s0.tops[t]);
                                    assert(st2.tops[t] == st.tops[t]);
                                }
                            }
                        }
                        None
                    },
                    None => {
                        let r = rewrite_stmt(&self.alias_map, stmt);
                        proof {
                            lemma_same_but_uses_mono(
                                *stmt,
                                r,
                                alias_keys(self.alias_map@),
                                self.loaded(),
                                alias_vals(self.alias_map@),
                                self.values(),
                            );
                            lemma_same_but_reads_transfer(*stmt, r, self.alias_map@, st.aliases);
                        }
                        Some(r)
                    },
                }
            },
            StmtInner::Load(l) => {
                let pi = match l.ptr.vreg_index() {
                    Some(idx) => self.promoted_index(idx),
                    None => None,
                };
                match pi {
                    Some(i) => {
                        if let Some(dst_idx) = l.dst.vreg_index() {
                            let cur = self.current_value(i);
                            let ghost al = self.alias_map@;
                            proof {
                                assert(promoted.contains(promoted[i as int]));
                                assert(loaded_regs(blocks@, promoted).contains(dst_idx));
                                lemma_value_of_same(s0, st, i as int);
                                lemma_same_operand_props(cur, value_of(s0, i as int), value_of(st, i as int));
                            }
                            self.alias_map.push((dst_idx, cur));
                            assert(self.alias_map@.subrange(0, a0.len() as int) =~= al.subrange(0, a0.len() as int));
                            assert forall|x: usize| alias_keys(self.alias_map@).contains(x) implies loaded_regs(blocks@, promoted).contains(x) by {
                                let k = choose|k: int| 0 <= k < self.alias_map@.len() && (#[trigger] self.alias_map@[k]).0 == x;
                                if k < al.len() {
                                    assert(self.alias_map@[k] == al[k]);
                                    assert(alias_keys(al).contains(x));
                                }
                            }
                            assert forall|v: Operand| alias_vals(self.alias_map@).contains(v) implies self.values().contains(v) by {
                                let k = choose|k: int| 0 <= k < self.alias_map@.len() && same_operand(v, (#[trigger] self.alias_map@[k]).1);
                                if k < al.len() {
                                    assert(self.alias_map@[k] == al[k]);
                                    assert(alias_vals(al).contains(v));
                                } else {
                                    lemma_promoted_values_copy(v, cur, self.blocks@, self.promoted@, self.initial_phis@);
                                }
                            }
                            proof {
                                let st2 = rename_step(st, *stmt, promoted);
                                assert(first_index(promoted, l.ptr.spec_vreg().unwrap()) == i);
                                assert(self.state().tops == s0.tops);
                                assert forall|k: int| 0 <= k < self.alias_map@.len() implies (#[trigger] self.alias_map@[k]).0
                                    == st2.aliases[k].0 && same_operand(self.alias_map@[k].1, st2.aliases[k].1) by {
                                    if k < al.len() {
                                        assert(self.alias_map@[k] == al[k]);
                                        assert(st2.aliases[k] == st.aliases[k]);
                                    }
                                }
                            }
                        }
                        None
                    },
                    None => {
                        let r = rewrite_stmt(&self.alias_map, stmt);
                        proof {
                            lemma_same_but_uses_mono(
                                *stmt,
                                r,
                                alias_keys(self.alias_map@),
                                self.loaded(),
                                alias_vals(self.alias_map@),
                                self.values(),
                            );
                            lemma_same_but_reads_transfer(*stmt, r, self.alias_map@, st.aliases);
                        }
                        Some(r)
                    },
                }
            },
            _ => {
                let r = rewrite_stmt(&self.alias_map, stmt);
                proof {
                    lemma_same_but_uses_mono(
                        *stmt,
                        r,
                        alias_keys(self.alias_map@),
                        self.loaded(),
                        alias_vals(self.alias_map@),
                        self.values(),
                    );
                    lemma_same_but_reads_transfer(*stmt, r, self.alias_map@, st.aliases);
                }
                Some(r)
            },
        }
    }

    /// Renames the statements of block `b`, from the renaming state `st0`
    /// that the stacks and aliases hold on entry.
    fn rename_stmts(
        &mut self,
        b: usize,
        pushed: &mut Vec<usize>,
        Ghost(base): Ghost<Seq<Seq<Operand>>>,
        Ghost(a0): Ghost<Seq<(usize, Operand)>>,
        Ghost(st0): Ghost<RenameState>,
    ) -> (out: Vec<Stmt>)
        requires
            old(self).wf(),
            b < old(self).n(),
            stacks_extend(old(self).stacks(), base, old(pushed)@),
            extends(old(self).alias_map@, a0),
            same_state(old(self).state(), st0),
        ensures
            final(self).wf(),
            renamed_from(out@, final(self).blocks@[b as int].stmts@, final(self).promoted@, final(self).loaded(), final(self).values()),
            renamed_exactly(out@, final(self).blocks@[b as int].stmts@, final(self).promoted@, st0),
            same_state(
                final(self).state(),
                state_after(
                    final(self).blocks@[b as int].stmts@,
                    final(self).promoted@,
                    st0,
                    final(self).blocks@[b as int].stmts@.len() as int,
                ),
            ),
            stacks_extend(final(self).stacks(), base, final(pushed)@),
            extends(final(self).alias_map@, a0),
            final(self).blocks == old(self).blocks,
            final(self).cfg == old(self).cfg,
            final(self).dom_info == old(self).dom_info,
            final(self).promoted == old(self).promoted,
            final(self).phi_placement == old(self).phi_placement,
            final(self).initial_phis == old(self).initial_phis,
            final(self).rewritten == old(self).rewritten,
            final(self).visited == old(self).visited,
            final(self).entry == old(self).entry,
            final(self).parent == old(self).parent,
    {
        let ghost stmts = self.blocks@[b as int].stmts@;
        let ghost promoted = self.promoted@;
        let n = self.blocks[b].stmts.len();
        let mut out: Vec<Stmt> = Vec::new();
        let mut j: usize = 0;
        while j < n
            invariant
                self.wf(),
                b < self.n(),
                stmts == self.blocks@[b as int].stmts@,
                n == stmts.len(),
                j <= n,
                promoted == self.promoted@,
                renamed_from(out@, stmts.take(j as int), promoted, self.loaded(), self.values()),
                out@.len() == kept_with_states(stmts, promoted, st0, j as int).len(),
                forall|i: int| 0 <= i < out@.len() ==> same_but_reads(
                    kept_with_states(stmts, promoted, st0, j as int)[i].0,
                    #[trigger] out@[i],
                    kept_with_states(stmts, promoted, st0, j as int)[i].1.aliases,
                ),
                same_state(self.state(), state_after(stmts, promoted, st0, j as int)),
                stacks_extend(self.stacks(), base, pushed@),
                extends(self.alias_map@, a0),
                self.blocks == old(self).blocks,
                self.cfg == old(self).cfg,
                self.dom_info == old(self).dom_info,
                self.promoted == old(self).promoted,
                self.phi_placement == old(self).phi_placement,
                self.initial_phis == old(self).initial_phis,
                self.rewritten == old(self).rewritten,
                self.visited == old(self).visited,
                self.entry == old(self).entry,
                self.parent == old(self).parent,
            decreases n - j,
        {
            let ghost outb = out@;
            let ghost sj = state_after(stmts, promoted, st0, j as int);
            proof {
                lemma_kept_step(stmts, promoted, j as int);
            }
            let r = self.rename_one(b, j, pushed, Ghost(base), Ghost(a0), Ghost(sj));
            match r {
                Some(x) => {
                    out.push(x);
                },
                None => {},
            }
            proof {
                let k1 = kept_stmts(stmts.take(j as int + 1), promoted);
                let k0 = kept_stmts(stmts.take(j as int), promoted);
                let w1 = kept_with_states(stmts, promoted, st0, j as int + 1);
                let w0 = kept_with_states(stmts, promoted, st0, j as int);
                if kept(stmts[j as int], promoted) {
                    assert(out@.len() == outb.len() + 1);
                    assert forall|i: int| 0 <= i < out@.len() implies same_but_uses(k1[i], #[trigger] out@[i], self.loaded(), self.values()) by {
                        if i < outb.len() {
                            assert(out@[i] == outb[i]);
                            assert(k1[i] == k0[i]);
                        }
                    }
                    assert forall|i: int| 0 <= i < out@.len() implies same_but_reads(w1[i].0, #[trigger] out@[i], w1[i].1.aliases) by {
                        if i < outb.len() {
                            assert(out@[i] == outb[i]);
                            assert(w1[i] == w0[i]);
                        }
                    }
                } else {
                    assert(out@ == outb);
                }
            }
            j += 1;
        }
        assert(stmts.take(j as int) =~= stmts);
        out
    }
}

impl<'a> Renamer<'a> {
    /// Gives each PHI of each successor of `b` an incoming value from `b`:
    /// the current value of its register.
    fn fill_successor_phis(&mut self, b: usize)
        requires
            old(self).wf(),
            b < old(self).n(),
            !old(self).visited@[b as int],
            incomings_counted(old(self).phi_placement.spec_nodes(), old(self).cfg.spec_graph().succ_seqs(), old(self).visited@),
            same_state(
                old(self).state(),
                exit_state(old(self).blocks@, old(self).initial_phis@, old(self).promoted@, old(self).entry@[b as int], b as int),
            ),
            incomings_exact(
                old(self).phi_placement.spec_nodes(),
                old(self).blocks@,
                old(self).initial_phis@,
                old(self).promoted@,
                old(self).entry@,
                old(self).visited@,
            ),
        ensures
            incomings_exact(
                final(self).phi_placement.spec_nodes(),
                final(self).blocks@,
                final(self).initial_phis@,
                final(self).promoted@,
                final(self).entry@,
                old(self).visited@.update(b as int, true),
            ),
            final(self).wf(),
            incomings_counted(
                final(self).phi_placement.spec_nodes(),
                final(self).cfg.spec_graph().succ_seqs(),
                old(self).visited@.update(b as int, true),
            ),
            final(self).blocks == old(self).blocks,
            final(self).cfg == old(self).cfg,
            final(self).dom_info == old(self).dom_info,
            final(self).promoted == old(self).promoted,
            final(self).initial_phis == old(self).initial_phis,
            final(self).var_stack == old(self).var_stack,
            final(self).alias_map == old(self).alias_map,
            final(self).rewritten == old(self).rewritten,
            final(self).visited == old(self).visited,
            final(self).entry == old(self).entry,
            final(self).parent == old(self).parent,
    {
        let cfg = self.cfg;
        let ghost succs = cfg.spec_graph().succ_seqs();
        let ghost labels = cfg.spec_labels();
        let pred_label = cfg.label(b).clone();
        let succ = cfg.successors(b);
        let ghost ex = exit_state(self.blocks@, self.initial_phis@, self.promoted@, self.entry@[b as int], b as int);
        let ghost vis1 = self.visited@.update(b as int, true);
        let ghost init = self.initial_phis@;
        let ghost promoted = self.promoted@;
        proof {
            lemma_incomings_exact_mark(
                self.phi_placement.spec_nodes(),
                self.blocks@,
                init,
                promoted,
                self.entry@,
                self.visited@,
                b as int,
            );
        }
        let mut t: usize = 0;
        while t < succ.len()
            invariant
                self.wf(),
                cfg == self.cfg,
                succs == cfg.spec_graph().succ_seqs(),
                labels == cfg.spec_labels(),
                b < self.n(),
                succ@ == succs[b as int],
                pred_label == labels[b as int],
                t <= succ@.len(),
                !self.visited@[b as int],
                ex == exit_state(self.blocks@, self.initial_phis@, self.promoted@, self.entry@[b as int], b as int),
                same_state(self.state(), ex),
                vis1 == self.visited@.update(b as int, true),
                init == self.initial_phis@,
                promoted == self.promoted@,
                incomings_exact(self.phi_placement.spec_nodes(), self.blocks@, init, promoted, self.entry@, vis1),
                forall|x: int, y: int|
                    0 <= x < self.phi_placement.spec_nodes().len() && 0 <= y < self.phi_placement.spec_nodes()[x].len()
                        ==> (#[trigger] self.phi_placement.spec_nodes()[x][y]).incomings@.len() == edges_into(
                        succs,
                        self.visited@,
                        x as usize,
                        self.visited@.len() as int,
                    ) + count_in(succ@.take(t as int), x as usize),
                self.blocks == old(self).blocks,
                self.cfg == old(self).cfg,
                self.dom_info == old(self).dom_info,
                self.promoted == old(self).promoted,
                self.initial_phis == old(self).initial_phis,
                self.var_stack == old(self).var_stack,
                self.alias_map == old(self).alias_map,
                self.rewritten == old(self).rewritten,
                self.visited == old(self).visited,
                self.entry == old(self).entry,
                self.parent == old(self).parent,
            decreases succ@.len() - t,
        {
            let s = succ[t];
            proof {
                assert(crate::common::graph::succs_in_range(succs));
                assert(succs[b as int][t as int] == s);
            }
            let m = self.phi_placement.phis_at(s).len();
            let mut vals: Vec<Operand> = Vec::new();
            let mut k: usize = 0;
            while k < m
                invariant
                    self.wf(),
                    s < self.n(),
                    m == self.phi_placement.spec_nodes()[s as int].len(),
                    k <= m,
                    vals@.len() == k,
                    same_state(self.state(), ex),
                    init == self.initial_phis@,
                    promoted == self.promoted@,
                    forall|t: int| 0 <= t < vals@.len() ==> same_operand(
                        #[trigger] vals@[t],
                        incoming_value(ex, promoted, init[s as int][t].var),
                    ),
                    forall|t: int| 0 <= t < vals@.len() ==> self.values().contains(#[trigger] vals@[t]),
                decreases m - k,
            {
                let var = self.phi_placement.phis_at(s)[k].var;
                assert(var == init[s as int][k as int].var);
                let v = match self.promoted_index(var) {
                    Some(i) => {
                        let c = self.current_value(i);
                        proof {
                            lemma_value_of_same(self.state(), ex, i as int);
                            lemma_same_operand_props(c, value_of(self.state(), i as int), value_of(ex, i as int));
                        }
                        c
                    },
                    None => Operand::integer(0),
                };
                proof {
                    lemma_same_operand_props(v, v, v);
                }
                vals.push(v);
                k += 1;
            }
            let mut k: usize = 0;
            while k < m
                invariant
                    self.wf(),
                    cfg == self.cfg,
                    succs == cfg.spec_graph().succ_seqs(),
                    labels == cfg.spec_labels(),
                    b < self.n(),
                    s < self.n(),
                    succs[b as int].contains(s),
                    pred_label == labels[b as int],
                    m == self.phi_placement.spec_nodes()[s as int].len(),
                    k <= m,
                    vals@.len() == m,
                    t < succ@.len(),
                    succ@ == succs[b as int],
                    s == succ@[t as int],
                    forall|x: int, y: int|
                        0 <= x < self.phi_placement.spec_nodes().len() && 0 <= y < self.phi_placement.spec_nodes()[x].len()
                            ==> (#[trigger] self.phi_placement.spec_nodes()[x][y]).incomings@.len() == edges_into(
                            succs,
                            self.visited@,
                            x as usize,
                            self.visited@.len() as int,
                        ) + count_in(succ@.take(t as int), x as usize) + if x == s as int && y < k {
                            1int
                        } else {
                            0int
                        },
                    ex == exit_state(self.blocks@, self.initial_phis@, self.promoted@, self.entry@[b as int], b as int),
                    vis1 == self.visited@.update(b as int, true),
                    init == self.initial_phis@,
                    promoted == self.promoted@,
                    incomings_exact(self.phi_placement.spec_nodes(), self.blocks@, init, promoted, self.entry@, vis1),
                    forall|t: int| 0 <= t < vals@.len() ==> same_operand(
                        #[trigger] vals@[t],
                        incoming_value(ex, promoted, init[s as int][t].var),
                    ),
                    forall|t: int| 0 <= t < vals@.len() ==> self.values().contains(#[trigger] vals@[t]),
                    self.blocks == old(self).blocks,
                    self.cfg == old(self).cfg,
                    self.dom_info == old(self).dom_info,
                    self.promoted == old(self).promoted,
                    self.initial_phis == old(self).initial_phis,
                    self.var_stack == old(self).var_stack,
                    self.alias_map == old(self).alias_map,
                    self.rewritten == old(self).rewritten,
                    self.visited == old(self).visited,
                    self.entry == old(self).entry,
                    self.parent == old(self).parent,
                decreases m - k,
            {
                let ghost before = self.phi_placement.spec_nodes();
                let ghost st = self.stacks();
                let ghost vs = self.values();
                let v = vals[k].clone();
                proof {
                    assert(self.values().contains(vals@[k as int]));
                    lemma_promoted_values_copy(v, vals@[k as int], self.blocks@, self.promoted@, self.initial_phis@);
                }
                self.phi_placement.push_incoming(s, k, pred_label.clone(), v);
                proof {
                    let after = self.phi_placement.spec_nodes();
                    lemma_same_operand_props(v, vals@[k as int], incoming_value(ex, promoted, init[s as int][k as int].var));
                    assert(before[s as int][k as int].var == init[s as int][k as int].var);
                    assert(self.blocks@[b as int].label == labels[b as int]);
                    assert(incoming_from(
                        self.blocks@,
                        init,
                        promoted,
                        self.entry@,
                        s as int,
                        before[s as int][k as int].var,
                        after[s as int][k as int].incomings@.last(),
                        b as int,
                    ));
                    lemma_incomings_exact_push(
                        before,
                        after,
                        self.blocks@,
                        init,
                        promoted,
                        self.entry@,
                        vis1,
                        s as int,
                        k as int,
                        b as int,
                        after[s as int][k as int].incomings@.last(),
                    );
                    assert(self.stacks() == st);
                    assert(self.values() == vs);
                    assert forall|x: int, y: int, z: int|
                        0 <= x < after.len() && 0 <= y < after[x].len() && 0 <= z < after[x][y].incomings@.len()
                            implies self.values().contains((#[trigger] after[x][y].incomings@[z]).1) by {
                        if x != s as int {
                            assert(after[x] == before[x]);
                            assert(after[x][y].incomings@[z] == before[x][y].incomings@[z]);
                        } else if y != k as int {
                            assert(after[x][y] == before[x][y]);
                            assert(after[x][y].incomings@[z] == before[x][y].incomings@[z]);
                        } else if z < before[x][y].incomings@.len() {
                            assert(after[x][y].incomings@[z] == before[x][y].incomings@[z]);
                        } else {
                            assert(after[x][y].incomings@[z].1 == v);
                        }
                    }
                    assert(same_phi_shape(after, init)) by {
                        assert forall|x: int| 0 <= x < after.len() implies (#[trigger] after[x]).len() == init[x].len() by {
                            if x != s as int {
                                assert(after[x] == before[x]);
                            }
                        }
                        assert forall|x: int, y: int| 0 <= x < after.len() && 0 <= y < after[x].len() implies (#[trigger] after[x][y]).var == init[x][y].var
                            && after[x][y].dst == init[x][y].dst by {
                            if x != s as int {
                                assert(after[x] == before[x]);
                            } else if y != k as int {
                                assert(after[x][y] == before[x][y]);
                            }
                        }
                    }
                    lemma_incomings_push(before, after, labels, succs, s as int, k as int, b as int);
                    assert(incomings_from_preds(after, labels, succs));
                    assert(after.len() == self.n());
                    assert forall|x: int, y: int|
                        0 <= x < after.len() && 0 <= y < after[x].len() implies (#[trigger] after[x][y]).incomings@.len() == edges_into(
                            succs,
                            self.visited@,
                            x as usize,
                            self.visited@.len() as int,
                        ) + count_in(succ@.take(t as int), x as usize) + if x == s as int && y < k + 1 {
                            1int
                        } else {
                            0int
                        } by {
                        if x != s as int {
                            assert(after[x] == before[x]);
                        } else if y != k as int {
                            assert(after[x][y] == before[x][y]);
                        }
                    }
                }
                k += 1;
            }
            proof {
                let nodes = self.phi_placement.spec_nodes();
                assert(succ@.take(t + 1).drop_last() =~= succ@.take(t as int));
                assert(succ@.take(t + 1).last() == s);
                assert forall|x: int, y: int|
                    0 <= x < nodes.len() && 0 <= y < nodes[x].len() implies (#[trigger] nodes[x][y]).incomings@.len() == edges_into(
                        succs,
                        self.visited@,
                        x as usize,
                        self.visited@.len() as int,
                    ) + count_in(succ@.take(t + 1), x as usize) by {
                    assert(count_in(succ@.take(t + 1), x as usize) == count_in(succ@.take(t as int), x as usize) + if s == x as usize {
                        1nat
                    } else {
                        0nat
                    });
                }
            }
            t += 1;
        }
        proof {
            let nodes = self.phi_placement.spec_nodes();
            assert(succ@.take(t as int) =~= succ@);
            assert forall|x: int, y: int|
                0 <= x < nodes.len() && 0 <= y < nodes[x].len() implies (#[trigger] nodes[x][y]).incomings@.len() == edges_into(
                    succs,
                    self.visited@.update(b as int, true),
                    x as usize,
                    self.visited@.update(b as int, true).len() as int,
                ) by {
                lemma_edges_into_mark(succs, self.visited@, b as int, x as usize, self.visited@.len() as int);
            }
        }
    }
}

proof fn lemma_count_in_pop(s: Seq<usize>)
    requires
        s.len() > 0,
    ensures
        forall|j: usize| #[trigger] count_in(s, j) == count_in(s.drop_last(), j) + if s.last() == j { 1nat } else { 0nat },
{
}

impl<'a> Renamer<'a> {
    /// Pops the value pushed last, on the stack that `pushed` names last.
    fn pop_value(&mut self, pushed: &mut Vec<usize>, Ghost(base): Ghost<Seq<Seq<Operand>>>)
        requires
            old(self).wf(),
            old(pushed)@.len() > 0,
            stacks_extend(old(self).stacks(), base, old(pushed)@),
        ensures
            final(self).wf(),
            final(pushed)@ == old(pushed)@.drop_last(),
            stacks_extend(final(self).stacks(), base, final(pushed)@),
            final(self).blocks == old(self).blocks,
            final(self).cfg == old(self).cfg,
            final(self).dom_info == old(self).dom_info,
            final(self).promoted == old(self).promoted,
            final(self).phi_placement == old(self).phi_placement,
            final(self).initial_phis == old(self).initial_phis,
            final(self).alias_map == old(self).alias_map,
            final(self).rewritten == old(self).rewritten,
            final(self).visited == old(self).visited,
            final(self).entry == old(self).entry,
            final(self).parent == old(self).parent,
    {
        let ghost before = self.stacks();
        let ghost pb = pushed@;
        let i = pushed.pop().unwrap();
        proof {
            lemma_count_in_pop(pb);
            assert(pb[pb.len() - 1] == i);
            assert(i < before.len());
            assert(before[i as int].len() == base[i as int].len() + count_in(pb, i));
            lemma_count_in_pos_local(pb, i);
        }
        let mut st: Vec<Operand> = Vec::new();
        std::mem::swap(&mut st, &mut self.var_stack[i]);
        st.pop();
        let ghost ns = st@;
        self.var_stack.set(i, st);
        proof {
            assert(self.stacks() =~= before.update(i as int, ns));
            assert forall|j: usize| j < self.stacks().len() implies (#[trigger] self.stacks()[j as int]).len() == base[j as int].len() + count_in(pushed@, j)
                && self.stacks()[j as int].subrange(0, base[j as int].len() as int) == base[j as int] by {
                assert(before[j as int].len() == base[j as int].len() + count_in(pb, j));
                assert(before[j as int].subrange(0, base[j as int].len() as int) == base[j as int]);
                if j == i {
                    assert(ns.subrange(0, base[j as int].len() as int) =~= before[j as int].subrange(0, base[j as int].len() as int));
                }
            }
        }
    }

    /// Renames block `b` itself, entered in state `ent` from `par` (-1 for
    /// none): records how it was entered, pushes its PHIs, renames its
    /// statements and gives its successors' PHIs their incoming values.
    #[verifier::rlimit(30)]
    fn visit_block(
        &mut self,
        b: usize,
        Ghost(par): Ghost<int>,
        Ghost(ent): Ghost<RenameState>,
        Ghost(base): Ghost<Seq<Seq<Operand>>>,
        Ghost(a0): Ghost<Seq<(usize, Operand)>>,
    ) -> (pushed: Vec<usize>)
        requires
            old(self).wf(),
            b < old(self).n(),
            !old(self).visited@[b as int],
            base == old(self).stacks(),
            a0 == old(self).alias_map@,
            incomings_counted(old(self).phi_placement.spec_nodes(), old(self).cfg.spec_graph().succ_seqs(), old(self).visited@),
            incomings_exact(old(self).phi_placement.spec_nodes(), old(self).blocks@, old(self).initial_phis@, old(self).promoted@, old(self).entry@, old(self).visited@),
            same_state(old(self).state(), ent),
            par == -1 ==> ent == empty_state(old(self).promoted@.len()) && !has_idom(
                old(self).dom_info.spec_rows(),
                dom_levels(old(self).dom_info.spec_rows()),
                b as int,
            ),
            par != -1 ==> 0 <= par < old(self).n() && old(self).visited@[par] && is_idom_choice(
                old(self).dom_info.spec_rows(),
                dom_levels(old(self).dom_info.spec_rows()),
                b as int,
                par,
            ) && ent == exit_state(old(self).blocks@, old(self).initial_phis@, old(self).promoted@, old(self).entry@[par], par),
        ensures
            final(self).wf(),
            incomings_counted(final(self).phi_placement.spec_nodes(), final(self).cfg.spec_graph().succ_seqs(), final(self).visited@),
            incomings_exact(final(self).phi_placement.spec_nodes(), final(self).blocks@, final(self).initial_phis@, final(self).promoted@, final(self).entry@, final(self).visited@),
            stacks_extend(final(self).stacks(), base, pushed@),
            extends(final(self).alias_map@, a0),
            same_state(final(self).state(), exit_state(final(self).blocks@, final(self).initial_phis@, final(self).promoted@, ent, b as int)),
            final(self).visited@ == old(self).visited@.update(b as int, true),
            final(self).entry@ == old(self).entry@.update(b as int, ent),
            final(self).parent@ == old(self).parent@.update(b as int, par),
            final(self).blocks == old(self).blocks,
            final(self).cfg == old(self).cfg,
            final(self).dom_info == old(self).dom_info,
            final(self).promoted == old(self).promoted,
            final(self).initial_phis == old(self).initial_phis,
    {
        let ghost vis0 = self.visited@;
        let ghost ent0 = self.entry@;
        let ghost par0 = self.parent@;
        let ghost nodes0 = self.phi_placement.spec_nodes();
        self.entry = Ghost(self.entry@.update(b as int, ent));
        self.parent = Ghost(self.parent@.update(b as int, par));
        proof {
            lemma_incomings_exact_entry(nodes0, self.blocks@, self.initial_phis@, self.promoted@, ent0, vis0, b as int, ent);
            reveal(entered_ok);
            assert forall|x: int| 0 <= x < self.n() && #[trigger] self.visited@[x] implies entered_ok(
                self.blocks@,
                self.initial_phis@,
                self.promoted@,
                self.dom_info.spec_rows(),
                self.parent@,
                self.entry@,
                self.visited@,
                x,
            ) by {
                assert(x != b as int);
                assert(entered_ok(self.blocks@, self.initial_phis@, self.promoted@, self.dom_info.spec_rows(), par0, ent0, vis0, x));
                if par0[x] >= 0 {
                    assert(vis0[par0[x]]);
                    assert(par0[x] != b as int);
                }
            }
        }
        let mut pushed: Vec<usize> = Vec::new();
        proof {
            assert forall|j: usize| j < self.stacks().len() implies (#[trigger] self.stacks()[j as int]).len() == base[j as int].len() + count_in(pushed@, j)
                && self.stacks()[j as int].subrange(0, base[j as int].len() as int) == base[j as int] by {
                assert(self.stacks()[j as int].subrange(0, base[j as int].len() as int) =~= base[j as int]);
            }
            assert(self.alias_map@.subrange(0, a0.len() as int) =~= a0);
        }
        self.push_block_phis(b, &mut pushed, Ghost(base), Ghost(ent));
        let ghost st1 = phis_state(ent, self.initial_phis@[b as int], self.promoted@);
        let out = self.rename_stmts(b, &mut pushed, Ghost(base), Ghost(a0), Ghost(st1));
        self.fill_successor_phis(b);
        self.rewritten.set(b, out);
        self.visited.set(b, true);
        proof {
            reveal(entered_ok);
            reveal(renamed_ok);
            assert(self.entry@[b as int] == ent);
            assert(self.parent@[b as int] == par);
            if par >= 0 {
                assert(self.entry@[par] == ent0[par]);
                assert(self.visited@[par]);
            }
            assert(entered_from(self.blocks@, self.initial_phis@, self.promoted@, self.dom_info.spec_rows(), self.parent@, self.entry@, b as int));
            assert forall|x: int| 0 <= x < self.n() && #[trigger] self.visited@[x] implies entered_ok(
                self.blocks@,
                self.initial_phis@,
                self.promoted@,
                self.dom_info.spec_rows(),
                self.parent@,
                self.entry@,
                self.visited@,
                x,
            ) by {
                if x != b as int {
                    assert(vis0[x]);
                }
            }
        }
        pushed
    }

    /// Renames the subtrees of the dominator tree below block `b`, which was
    /// left in state `ex`; the stacks and aliases are as they were on return.
    fn rename_children(&mut self, b: usize, Ghost(ex): Ghost<RenameState>, Ghost(open): Ghost<Set<int>>)
        requires
            old(self).wf(),
            closed_below(old(self).dom_info.spec_children(), old(self).visited@, open),
            forall|x: int| #[trigger] open.contains(x) ==> 0 <= x < old(self).n() && old(self).visited@[x],
            b < old(self).n(),
            old(self).visited@[b as int],
            incomings_counted(old(self).phi_placement.spec_nodes(), old(self).cfg.spec_graph().succ_seqs(), old(self).visited@),
            incomings_exact(old(self).phi_placement.spec_nodes(), old(self).blocks@, old(self).initial_phis@, old(self).promoted@, old(self).entry@, old(self).visited@),
            same_state(old(self).state(), ex),
            ex == exit_state(old(self).blocks@, old(self).initial_phis@, old(self).promoted@, old(self).entry@[b as int], b as int),
        ensures
            final(self).wf(),
            incomings_counted(final(self).phi_placement.spec_nodes(), final(self).cfg.spec_graph().succ_seqs(), final(self).visited@),
            incomings_exact(final(self).phi_placement.spec_nodes(), final(self).blocks@, final(self).initial_phis@, final(self).promoted@, final(self).entry@, final(self).visited@),
            final(self).stacks() == old(self).stacks(),
            final(self).alias_map@ == old(self).alias_map@,
            final(self).blocks == old(self).blocks,
            final(self).cfg == old(self).cfg,
            final(self).dom_info == old(self).dom_info,
            final(self).promoted == old(self).promoted,
            final(self).initial_phis == old(self).initial_phis,
            forall|x: int| 0 <= x < old(self).n() && old(self).visited@[x] ==> #[trigger] final(self).visited@[x],
            keeps_entries(old(self).visited@, old(self).entry@, old(self).parent@, final(self).entry@, final(self).parent@),
            children_renamed(
                old(self).dom_info.spec_children()[b as int],
                final(self).visited@,
                old(self).dom_info.spec_children()[b as int].len() as int,
            ),
            closed_below(old(self).dom_info.spec_children(), final(self).visited@, open),
        decreases old(self).n() - old(self).dom_info.spec_levels()[b as int], 0int,
    {
        let ghost vis0 = self.visited@;
        let ghost ent0 = self.entry@;
        let ghost par0 = self.parent@;
        let ghost st0 = self.stacks();
        let ghost al0 = self.alias_map@;
        let dom = self.dom_info;
        let children = dom.dom_children(b);
        proof {
            lemma_levels(dom, self.cfg.spec_graph());
        }
        let mut t: usize = 0;
        while t < children.len()
            invariant
                self.wf(),
                dom == self.dom_info,
                dom.spec_levels() == dom_levels(dom.spec_rows()),
                b < self.n(),
                children@ == dom.spec_children()[b as int],
                t <= children@.len(),
                children_renamed(children@, self.visited@, t as int),
                closed_below(dom.spec_children(), self.visited@, open),
                forall|x: int| #[trigger] open.contains(x) ==> 0 <= x < self.n() && vis0[x],
                self.stacks() == st0,
                self.alias_map@ == al0,
                same_state(self.state(), ex),
                self.visited@[b as int],
                self.entry@[b as int] == ent0[b as int],
                ex == exit_state(self.blocks@, self.initial_phis@, self.promoted@, self.entry@[b as int], b as int),
                incomings_counted(self.phi_placement.spec_nodes(), self.cfg.spec_graph().succ_seqs(), self.visited@),
                incomings_exact(self.phi_placement.spec_nodes(), self.blocks@, self.initial_phis@, self.promoted@, self.entry@, self.visited@),
                forall|x: int| 0 <= x < self.n() && vis0[x] ==> #[trigger] self.visited@[x],
                keeps_entries(vis0, ent0, par0, self.entry@, self.parent@),
                vis0.len() == self.n(),
                vis0[b as int],
                self.blocks == old(self).blocks,
                self.cfg == old(self).cfg,
                self.dom_info == old(self).dom_info,
                self.promoted == old(self).promoted,
                self.initial_phis == old(self).initial_phis,
            decreases children@.len() - t,
        {
            let c = children[t];
            proof {
                assert(dom.wf());
                assert(c < self.n());
                assert(dom.spec_levels()[b as int] < dom.spec_levels()[c as int]);
                assert(dom.spec_levels()[c as int] <= self.n());
                assert(is_idom_choice(dom.spec_rows(), dom.spec_levels(), c as int, b as int));
            }
            let ghost vb = self.visited@;
            let ghost eb = self.entry@;
            let ghost pb = self.parent@;
            self.rename_block(c, Ghost(b as int), Ghost(ex), Ghost(open));
            proof {
                assert forall|x: int| 0 <= x < vis0.len() && #[trigger] vis0[x] implies self.entry@[x] == ent0[x] && self.parent@[x]
                    == par0[x] by {
                    assert(vb[x]);
                    assert(eb[x] == ent0[x] && pb[x] == par0[x]);
                }
                assert(vb[b as int]);
                assert forall|k: int| #![trigger children@[k]] 0 <= k < t + 1 implies self.visited@[children@[k] as int] by {
                    let d = children@[k] as int;
                    assert(0 <= d < self.n());
                    if k < t {
                        assert(vb[d]);
                    }
                }
            }
            t += 1;
        }
    }

    /// Renames block `b` and, below it, its subtree of the dominator tree,
    /// entering `b` in state `ent` from `par` (-1 for none, only for a block
    /// without an immediate dominator); each child is entered in the state in
    /// which `b` is left.  `open` holds the blocks whose subtrees are being
    /// renamed around this call: every other visited block, `b` among them,
    /// has its children visited on return.  The stacks and aliases are as
    /// they were on return.
    fn rename_block(&mut self, b: usize, Ghost(par): Ghost<int>, Ghost(ent): Ghost<RenameState>, Ghost(open): Ghost<Set<int>>)
        requires
            old(self).wf(),
            closed_below(old(self).dom_info.spec_children(), old(self).visited@, open),
            forall|x: int| #[trigger] open.contains(x) ==> 0 <= x < old(self).n() && old(self).visited@[x],
            b < old(self).n(),
            incomings_counted(old(self).phi_placement.spec_nodes(), old(self).cfg.spec_graph().succ_seqs(), old(self).visited@),
            incomings_exact(old(self).phi_placement.spec_nodes(), old(self).blocks@, old(self).initial_phis@, old(self).promoted@, old(self).entry@, old(self).visited@),
            same_state(old(self).state(), ent),
            par == -1 ==> ent == empty_state(old(self).promoted@.len()) && !has_idom(
                old(self).dom_info.spec_rows(),
                dom_levels(old(self).dom_info.spec_rows()),
                b as int,
            ),
            par != -1 ==> 0 <= par < old(self).n() && old(self).visited@[par] && is_idom_choice(
                old(self).dom_info.spec_rows(),
                dom_levels(old(self).dom_info.spec_rows()),
                b as int,
                par,
            ) && ent == exit_state(old(self).blocks@, old(self).initial_phis@, old(self).promoted@, old(self).entry@[par], par),
        ensures
            final(self).wf(),
            incomings_counted(final(self).phi_placement.spec_nodes(), final(self).cfg.spec_graph().succ_seqs(), final(self).visited@),
            incomings_exact(final(self).phi_placement.spec_nodes(), final(self).blocks@, final(self).initial_phis@, final(self).promoted@, final(self).entry@, final(self).visited@),
            final(self).stacks() == old(self).stacks(),
            final(self).alias_map@ == old(self).alias_map@,
            final(self).blocks == old(self).blocks,
            final(self).cfg == old(self).cfg,
            final(self).dom_info == old(self).dom_info,
            final(self).promoted == old(self).promoted,
            final(self).initial_phis == old(self).initial_phis,
            final(self).visited@[b as int],
            forall|x: int| 0 <= x < old(self).n() && old(self).visited@[x] ==> #[trigger] final(self).visited@[x],
            keeps_entries(old(self).visited@, old(self).entry@, old(self).parent@, final(self).entry@, final(self).parent@),
            !old(self).visited@[b as int] ==> final(self).parent@[b as int] == par && final(self).entry@[b as int] == ent,
            closed_below(old(self).dom_info.spec_children(), final(self).visited@, open),
            !open.contains(b as int) ==> children_renamed(
                old(self).dom_info.spec_children()[b as int],
                final(self).visited@,
                old(self).dom_info.spec_children()[b as int].len() as int,
            ),
        decreases old(self).n() - old(self).dom_info.spec_levels()[b as int], 1int,
    {
        if self.visited[b] {
            return;
        }
        let ghost base = self.stacks();
        let ghost a0 = self.alias_map@;
        let ghost vis0 = self.visited@;
        let ghost ent0 = self.entry@;
        let ghost par0 = self.parent@;
        let a_len = self.alias_map.len();
        let mut pushed = self.visit_block(b, Ghost(par), Ghost(ent), Ghost(base), Ghost(a0));
        let ghost ex = exit_state(self.blocks@, self.initial_phis@, self.promoted@, ent, b as int);
        let ghost vis1 = self.visited@;
        let ghost ent1 = self.entry@;
        let ghost par1 = self.parent@;
        proof {
            assert(!open.contains(b as int));
            assert forall|x: int, k: int|
                0 <= x < self.visited@.len() && self.visited@[x] && !open.insert(b as int).contains(x) && 0 <= k
                    < self.dom_info.spec_children()[x].len() implies self.visited@[#[trigger] self.dom_info.spec_children()[x][k] as int] by {
                assert(vis0[x]);
                assert(self.dom_info.spec_children()[x][k] < self.n());
            }
        }
        self.rename_children(b, Ghost(ex), Ghost(open.insert(b as int)));
        proof {
            let ch = self.dom_info.spec_children();
            assert forall|x: int, k: int|
                0 <= x < self.visited@.len() && self.visited@[x] && !open.contains(x) && 0 <= k < ch[x].len()
                    implies self.visited@[#[trigger] ch[x][k] as int] by {
                if x == b as int {
                    assert(ch[b as int][k] == ch[x][k]);
                }
            }
        }
        proof {
            assert forall|x: int| 0 <= x < self.n() && #[trigger] vis0[x] implies self.entry@[x] == ent0[x] && self.parent@[x]
                == par0[x] && self.visited@[x] by {
                assert(x != b as int);
                assert(vis1[x]);
                assert(ent1[x] == ent0[x]);
                assert(par1[x] == par0[x]);
                assert(0 <= x < self.n());
                assert(self.entry@[x] == ent1[x]);
                assert(self.parent@[x] == par1[x]);
                assert(self.visited@[x]);
            }
            assert(vis1[b as int]);
        }
        let ghost em = self.entry@;
        let ghost pm = self.parent@;
        let ghost vm = self.visited@;
        self.restore(pushed, a_len, Ghost(base), Ghost(a0));
        proof {
            assert(self.entry@ == em && self.parent@ == pm && self.visited@ == vm);
            assert forall|x: int| 0 <= x < vis0.len() && #[trigger] vis0[x] implies self.entry@[x] == ent0[x] && self.parent@[x]
                == par0[x] by {
                assert(em[x] == ent0[x] && pm[x] == par0[x]);
            }
            assert(ent1[b as int] == ent && par1[b as int] == par);
            assert(vis1[b as int]);
            assert(em[b as int] == ent1[b as int] && pm[b as int] == par1[b as int]);
        }
    }

    /// Drops the aliases recorded past the first `a_len` and pops the values
    /// that `pushed` names, back to the stacks `base` and aliases `a0`.
    fn restore(&mut self, pushed: Vec<usize>, a_len: usize, Ghost(base): Ghost<Seq<Seq<Operand>>>, Ghost(a0): Ghost<Seq<(usize, Operand)>>)
        requires
            old(self).wf(),
            stacks_extend(old(self).stacks(), base, pushed@),
            extends(old(self).alias_map@, a0),
            a_len == a0.len(),
        ensures
            final(self).wf(),
            final(self).stacks() == base,
            final(self).alias_map@ == a0,
            final(self).blocks == old(self).blocks,
            final(self).cfg == old(self).cfg,
            final(self).dom_info == old(self).dom_info,
            final(self).promoted == old(self).promoted,
            final(self).phi_placement == old(self).phi_placement,
            final(self).initial_phis == old(self).initial_phis,
            final(self).rewritten == old(self).rewritten,
            final(self).visited == old(self).visited,
            final(self).entry == old(self).entry,
            final(self).parent == old(self).parent,
    {
        let mut pushed = pushed;
        self.alias_map.truncate(a_len);
        assert(self.alias_map@ =~= a0);
        while pushed.len() > 0
            invariant
                self.wf(),
                stacks_extend(self.stacks(), base, pushed@),
                self.alias_map@ == a0,
                self.blocks == old(self).blocks,
                self.cfg == old(self).cfg,
                self.dom_info == old(self).dom_info,
                self.promoted == old(self).promoted,
                self.phi_placement == old(self).phi_placement,
                self.initial_phis == old(self).initial_phis,
                self.rewritten == old(self).rewritten,
                self.visited == old(self).visited,
                self.entry == old(self).entry,
                self.parent == old(self).parent,
            decreases pushed@.len(),
        {
            self.pop_value(&mut pushed, Ghost(base));
        }
        let vlen = self.var_stack.len();
        proof {
            assert forall|j: usize| j < base.len() implies #[trigger] self.stacks()[j as int] == base[j as int] by {
                assert(count_in(pushed@, j) == 0);
                assert(self.stacks()[j as int].len() == base[j as int].len() + count_in(pushed@, j));
                assert(self.stacks()[j as int] =~= self.stacks()[j as int].subrange(0, base[j as int].len() as int));
            }
            assert forall|j: int| 0 <= j < base.len() implies #[trigger] self.stacks()[j] == base[j] by {
                assert(self.var_stack@.len() == vlen);
                let u = j as usize;
                assert(self.stacks()[u as int] == base[u as int]);
            }
            assert(self.stacks() =~= base);
        }
    }
}

proof fn lemma_count_in_pos_local(s: Seq<usize>, x: usize)
    requires
        s.len() > 0,
        s.last() == x,
    ensures
        count_in(s, x) >= 1,
{
}

/// `s` is the PHI statement of `ph`.
pub open spec fn phi_stmt_of(s: Stmt, ph: PhiInfo) -> bool {
    s.inner matches StmtInner::Phi(x) && same_operand(x.dst, ph.dst) && same_incomings(x.incomings@, ph.incomings@)
}

/// Block `new_b` is `old_b` after promotion: the same label, the PHIs first,
/// then the statements that stay, renamed.
pub open spec fn promoted_block(
    old_b: BasicBlock,
    new_b: BasicBlock,
    phis: Seq<PhiInfo>,
    promoted: Seq<usize>,
    loaded: Set<usize>,
    vals: Set<Operand>,
) -> bool {
    &&& new_b.label == old_b.label
    &&& new_b.stmts@.len() >= phis.len()
    &&& forall|k: int| 0 <= k < phis.len() ==> phi_stmt_of(#[trigger] new_b.stmts@[k], phis[k])
    &&& renamed_from(new_b.stmts@.skip(phis.len() as int), old_b.stmts@, promoted, loaded, vals)
}

impl<'a> Renamer<'a> {
    /// A renamer over `blocks`, with the PHIs placed and the registers to promote.
    fn new(
        blocks: &'a [BasicBlock],
        cfg: &'a Cfg,
        dom_info: &'a DominatorInfo,
        phi_placement: PhiPlacement,
        promoted: Vec<usize>,
    ) -> (r: Self)
        requires
            cfg.wf(),
            cfg.spec_graph().succ_seqs().len() == blocks@.len(),
            cfg.spec_graph().succ_seqs() == block_succs(blocks@),
            cfg.spec_labels() == blocks@.map_values(|b: BasicBlock| b.label),
            dom_info.describes(cfg.spec_graph()),
            phi_placement.spec_nodes().len() == blocks@.len(),
            forall|b: int, k: int|
                0 <= b < blocks@.len() && 0 <= k < phi_placement.spec_nodes()[b].len() ==> (#[trigger] phi_placement.spec_nodes()[b][k]).incomings@.len() == 0,
        ensures
            r.wf(),
            r.blocks == blocks,
            r.cfg == cfg,
            r.dom_info == dom_info,
            r.promoted@ == promoted@,
            r.initial_phis@ == phi_placement.spec_nodes(),
            r.phi_placement == phi_placement,
            forall|b: int| 0 <= b < r.n() ==> !#[trigger] r.visited@[b],
            incomings_counted(r.phi_placement.spec_nodes(), r.cfg.spec_graph().succ_seqs(), r.visited@),
            incomings_exact(r.phi_placement.spec_nodes(), r.blocks@, r.initial_phis@, r.promoted@, r.entry@, r.visited@),
    {
        let n = blocks.len();
        let mut var_stack: Vec<Vec<Operand>> = Vec::new();
        let mut i: usize = 0;
        while i < promoted.len()
            invariant
                i <= promoted@.len(),
                var_stack@.len() == i,
                forall|t: int| 0 <= t < i ==> (#[trigger] var_stack@[t])@.len() == 0,
            decreases promoted@.len() - i,
        {
            var_stack.push(Vec::new());
            i += 1;
        }
        let mut rewritten: Vec<Vec<Stmt>> = Vec::new();
        let mut visited: Vec<bool> = Vec::new();
        let mut b: usize = 0;
        while b < n
            invariant
                b <= n,
                rewritten@.len() == b,
                visited@.len() == b,
                forall|x: int| 0 <= x < b ==> !#[trigger] visited@[x] && rewritten@[x]@.len() == 0,
            decreases n - b,
        {
            rewritten.push(Vec::new());
            visited.push(false);
            b += 1;
        }
        let ghost init = phi_placement.spec_nodes();
        let ghost np = promoted@.len();
        let r = Renamer {
            blocks,
            cfg,
            dom_info,
            phi_placement,
            promoted,
            var_stack,
            alias_map: Vec::new(),
            rewritten,
            visited,
            initial_phis: Ghost(init),
            entry: Ghost(Seq::new(n as nat, |b: int| empty_state(np))),
            parent: Ghost(Seq::new(n as nat, |b: int| -1int)),
        };
        proof {
            assert forall|x: int, k: int, j: int|
                0 <= x < init.len() && 0 <= k < init[x].len() && 0 <= j < init[x][k].incomings@.len() implies label_of_pred(
                    cfg.spec_labels(),
                    cfg.spec_graph().succ_seqs(),
                    x,
                    (#[trigger] init[x][k].incomings@[j]).0,
                ) by {
            }
            assert(alias_keys(r.alias_map@) =~= Set::<usize>::empty());
            assert(alias_vals(r.alias_map@) =~= Set::<Operand>::empty());
            assert forall|s: int, k: int|
                0 <= s < init.len() && 0 <= k < init[s].len() implies (#[trigger] init[s][k]).incomings@.len() == edges_into(
                    cfg.spec_graph().succ_seqs(),
                    r.visited@,
                    s as usize,
                    r.visited@.len() as int,
                ) by {
                lemma_edges_into_none(cfg.spec_graph().succ_seqs(), r.visited@, s as usize, r.visited@.len() as int);
            }
            assert forall|i: int, j: int| 0 <= i < r.stacks().len() && 0 <= j < r.stacks()[i].len() implies r.values().contains(
                #[trigger] r.stacks()[i][j],
            ) by {
                assert(r.stacks()[i].len() == 0);
            }
        }
        r
    }

    /// Empties the stacks and the aliases.
    fn clear_state(&mut self)
        requires
            old(self).wf(),
        ensures
            final(self).wf(),
            final(self).blocks == old(self).blocks,
            final(self).cfg == old(self).cfg,
            final(self).dom_info == old(self).dom_info,
            final(self).promoted == old(self).promoted,
            final(self).initial_phis == old(self).initial_phis,
            final(self).visited == old(self).visited,
            final(self).entry == old(self).entry,
            final(self).parent == old(self).parent,
            final(self).phi_placement == old(self).phi_placement,
            final(self).state() == empty_state(old(self).promoted@.len()),
    {
        let mut i: usize = 0;
        while i < self.var_stack.len()
            invariant
                self.wf(),
                i <= self.var_stack@.len(),
                self.phi_placement == old(self).phi_placement,
                self.blocks == old(self).blocks,
                self.cfg == old(self).cfg,
                self.dom_info == old(self).dom_info,
                self.promoted == old(self).promoted,
                self.initial_phis == old(self).initial_phis,
                self.visited == old(self).visited,
                self.entry == old(self).entry,
                self.parent == old(self).parent,
                self.var_stack@.len() == old(self).promoted@.len(),
                forall|a: int| 0 <= a < i ==> (#[trigger] self.stacks()[a]).len() == 0,
            decreases self.var_stack@.len() - i,
        {
            let ghost before = self.stacks();
            self.var_stack.set(i, Vec::new());
            proof {
                assert(self.stacks() =~= before.update(i as int, Seq::<Operand>::empty()));
                assert forall|a: int| 0 <= a < i + 1 implies (#[trigger] self.stacks()[a]).len() == 0 by {
                    if a < i {
                        assert(self.stacks()[a] == before[a]);
                    }
                }
                assert forall|a: int, j: int| 0 <= a < self.stacks().len() && 0 <= j < self.stacks()[a].len() implies self.values().contains(
                    #[trigger] self.stacks()[a][j],
                ) by {
                    assert(a != i as int);
                    assert(self.stacks()[a] == before[a]);
                }
            }
            i += 1;
        }
        let ghost st = self.stacks();
        let ghost vals = self.values();
        self.alias_map = Vec::new();
        assert(alias_keys(self.alias_map@) =~= Set::<usize>::empty());
        assert(alias_vals(self.alias_map@) =~= Set::<Operand>::empty());
        assert(self.stacks() == st);
        assert(self.values() == vals);
        assert(self.state().tops =~= empty_state(old(self).promoted@.len()).tops);
        assert(self.state().aliases =~= empty_state(old(self).promoted@.len()).aliases);
    }

    /// Renames every block: along the dominator tree from each of its roots,
    /// starting each root from nothing stored.
    fn run(&mut self)
        requires
            old(self).wf(),
            forall|b: int| 0 <= b < old(self).n() ==> !#[trigger] old(self).visited@[b],
            incomings_counted(old(self).phi_placement.spec_nodes(), old(self).cfg.spec_graph().succ_seqs(), old(self).visited@),
            incomings_exact(old(self).phi_placement.spec_nodes(), old(self).blocks@, old(self).initial_phis@, old(self).promoted@, old(self).entry@, old(self).visited@),
        ensures
            final(self).wf(),
            final(self).blocks == old(self).blocks,
            final(self).cfg == old(self).cfg,
            final(self).dom_info == old(self).dom_info,
            final(self).promoted == old(self).promoted,
            final(self).initial_phis == old(self).initial_phis,
            forall|b: int| 0 <= b < final(self).n() ==> #[trigger] final(self).visited@[b],
            incomings_counted(final(self).phi_placement.spec_nodes(), final(self).cfg.spec_graph().succ_seqs(), final(self).visited@),
            incomings_exact(final(self).phi_placement.spec_nodes(), final(self).blocks@, final(self).initial_phis@, final(self).promoted@, final(self).entry@, final(self).visited@),
    {
        let roots = self.dom_info.dom_tree_roots();
        proof {
            lemma_levels(self.dom_info, self.cfg.spec_graph());
        }
        let mut t: usize = 0;
        while t < roots.len()
            invariant
                self.wf(),
                roots@ == self.dom_info.spec_roots(),
                t <= roots@.len(),
                self.blocks == old(self).blocks,
                self.cfg == old(self).cfg,
                self.dom_info == old(self).dom_info,
                self.promoted == old(self).promoted,
                self.initial_phis == old(self).initial_phis,
                self.dom_info.spec_levels() == dom_levels(self.dom_info.spec_rows()),
                closed_below(self.dom_info.spec_children(), self.visited@, Set::<int>::empty()),
                forall|k: int| 0 <= k < t ==> self.visited@[#[trigger] roots@[k] as int],
                incomings_counted(self.phi_placement.spec_nodes(), self.cfg.spec_graph().succ_seqs(), self.visited@),
                incomings_exact(self.phi_placement.spec_nodes(), self.blocks@, self.initial_phis@, self.promoted@, self.entry@, self.visited@),
            decreases roots@.len() - t,
        {
            self.clear_state();
            let r = roots[t];
            proof {
                assert(self.dom_info.wf());
                assert(r < self.n());
                assert(roots@.contains(r));
                assert(self.dom_info.spec_roots().contains((r as int) as usize));
                assert(!has_idom(self.dom_info.spec_rows(), dom_levels(self.dom_info.spec_rows()), r as int));
            }
            let ghost np = self.promoted@.len();
            let ghost vb = self.visited@;
            proof {
                lemma_same_state_refl(self.state());
            }
            self.rename_block(r, Ghost(-1int), Ghost(empty_state(np)), Ghost(Set::<int>::empty()));
            proof {
                assert forall|k: int| 0 <= k < t + 1 implies self.visited@[#[trigger] roots@[k] as int] by {
                    if k < t {
                        assert(vb[roots@[k] as int]);
                        assert(roots@[k] < self.n());
                    }
                }
            }
            t += 1;
        }
        proof {
            assert forall|b: int| 0 <= b < self.n() implies #[trigger] self.visited@[b] by {
                lemma_tree_covered(*self.dom_info, self.cfg.spec_graph(), self.visited@, b);
            }
        }
    }

    /// The renamed blocks: each block's PHIs first, then its renamed statements.
    fn finish(self) -> (out: Vec<BasicBlock>)
        requires
            self.wf(),
            incomings_exact(self.phi_placement.spec_nodes(), self.blocks@, self.initial_phis@, self.promoted@, self.entry@, self.visited@),
            forall|b: int| 0 <= b < self.n() ==> #[trigger] self.visited@[b],
        ensures
            out@.len() == self.n(),
            forall|b: int| 0 <= b < self.n() ==> promoted_block(
                self.blocks@[b],
                #[trigger] out@[b],
                self.phi_placement.spec_nodes()[b],
                self.promoted@,
                self.loaded(),
                self.values(),
            ),
            renamed_with(self.blocks@, out@, self.initial_phis@, self.promoted@, self.dom_info.spec_rows(), self.parent@, self.entry@),
    {
        let ghost me = self;
        let blocks = self.blocks;
        let phis = self.phi_placement;
        let mut rewritten = self.rewritten;
        let n = blocks.len();
        let mut out: Vec<BasicBlock> = Vec::new();
        let mut i: usize = 0;
        while i < n
            invariant
                i <= n,
                n == me.n(),
                blocks == me.blocks,
                phis == me.phi_placement,
                me.wf(),
                forall|b: int| 0 <= b < n ==> #[trigger] me.visited@[b],
                rewritten@.len() == n,
                forall|b: int| i <= b < n ==> #[trigger] rewritten@[b] == me.rewritten@[b],
                out@.len() == i,
                forall|b: int| 0 <= b < i ==> promoted_block(
                    blocks@[b],
                    #[trigger] out@[b],
                    phis.spec_nodes()[b],
                    me.promoted@,
                    me.loaded(),
                    me.values(),
                ),
                forall|b: int| 0 <= b < i ==> renamed_exactly(
                    (#[trigger] out@[b]).stmts@.skip(me.initial_phis@[b].len() as int),
                    blocks@[b].stmts@,
                    me.promoted@,
                    phis_state(me.entry@[b], me.initial_phis@[b], me.promoted@),
                ),
            decreases n - i,
        {
            let row = phis.phis_at(i);
            let mut stmts: Vec<Stmt> = Vec::new();
            let mut k: usize = 0;
            while k < row.len()
                invariant
                    k <= row@.len(),
                    row@ == phis.spec_nodes()[i as int],
                    stmts@.len() == k,
                    forall|j: int| 0 <= j < k ==> phi_stmt_of(#[trigger] stmts@[j], row@[j]),
                decreases row@.len() - k,
            {
                let ph = &row[k];
                stmts.push(Stmt::as_phi(ph.dst.clone(), clone_incomings(&ph.incomings)));
                k += 1;
            }
            let mut rest: Vec<Stmt> = Vec::new();
            std::mem::swap(&mut rest, &mut rewritten[i]);
            assert(rest@ == me.rewritten@[i as int]@);
            let ghost head = stmts@;
            let ghost tail = rest@;
            stmts.append(&mut rest);
            assert(stmts@.skip(head.len() as int) =~= tail);
            out.push(BasicBlock { label: blocks[i].label.clone(), stmts });
            proof {
                assert(me.visited@[i as int]);
                assert forall|j: int| 0 <= j < head.len() implies phi_stmt_of(#[trigger] out@[i as int].stmts@[j], row@[j]) by {
                    assert(out@[i as int].stmts@[j] == head[j]);
                }
                reveal(renamed_ok);
                assert(head.len() == me.initial_phis@[i as int].len());
                assert(renamed_ok(
                    me.rewritten@[i as int]@,
                    me.blocks@[i as int].stmts@,
                    me.promoted@,
                    me.entry@[i as int],
                    me.initial_phis@[i as int],
                ));
            }
            i += 1;
        }
        proof {
            reveal(entered_ok);
            assert forall|b: int| 0 <= b < blocks@.len() implies renamed_exactly(
                (#[trigger] out@[b]).stmts@.skip(me.initial_phis@[b].len() as int),
                blocks@[b].stmts@,
                me.promoted@,
                phis_state(me.entry@[b], me.initial_phis@[b], me.promoted@),
            ) && entered_from(blocks@, me.initial_phis@, me.promoted@, me.dom_info.spec_rows(), me.parent@, me.entry@, b) by {
                assert(me.visited@[b]);
                assert(entered_ok(
                    blocks@,
                    me.initial_phis@,
                    me.promoted@,
                    me.dom_info.spec_rows(),
                    me.parent@,
                    me.entry@,
                    me.visited@,
                    b,
                ));
            }
        }
        out
    }
}

// ---------------------------------------------------------------------------
// The pass
// ---------------------------------------------------------------------------

/// Promotes the `i32` stack slots of a function to SSA registers.
pub struct Mem2RegPass;

/// The predecessor lists of the control-flow graph of `blocks`.
pub open spec fn cfg_preds(blocks: Seq<BasicBlock>) -> Seq<Seq<usize>> {
    Seq::new(blocks.len(), |s: int| pred_list(block_succs(blocks), s as usize, blocks.len() as int))
}

/// `rows` are the dominator sets of the control-flow graph of `blocks`, whose
/// reachable blocks are `reach`.
pub open spec fn dominance_of(blocks: Seq<BasicBlock>, rows: Seq<Seq<bool>>, reach: Seq<bool>) -> bool {
    &&& reach_closed(reach, block_succs(blocks))
    &&& reach_least(reach, block_succs(blocks))
    &&& dom_solution(rows, cfg_preds(blocks), reach)
    &&& dom_greatest(rows, cfg_preds(blocks), reach)
}

/// Which blocks store through register `x`.
pub open spec fn def_flags(blocks: Seq<BasicBlock>, x: usize) -> Seq<bool> {
    Seq::new(blocks.len(), |d: int| has_op(block_ops(blocks[d].stmts@), x, OperandRole::StorePtr))
}

/// Register `x` is only loaded and stored through, is stored through
/// somewhere, and every block that loads through it before storing is
/// strictly dominated by a block that stores through it.
pub open spec fn promotable_reg(blocks: Seq<BasicBlock>, x: usize, rows: Seq<Seq<bool>>) -> bool {
    &&& !exists|b: int| 0 <= b < blocks.len() && has_op(block_ops(#[trigger] blocks[b].stmts@), x, OperandRole::Use)
    &&& exists|b: int| 0 <= b < blocks.len() && has_op(block_ops(#[trigger] blocks[b].stmts@), x, OperandRole::StorePtr)
    &&& forall|b: int|
        0 <= b < blocks.len() && load_before_store(block_ops(#[trigger] blocks[b].stmts@), x) ==> exists|d: int|
            0 <= d < blocks.len() && d != b && has_op(block_ops(blocks[d].stmts@), x, OperandRole::StorePtr) && #[trigger] rows[b][d]
}

/// The registers promoted: `i32` slots that can be promoted, every one of
/// them that is stored through in more than one block among them.
pub open spec fn promotion_choice(blocks: Seq<BasicBlock>, promoted: Seq<usize>, rows: Seq<Seq<bool>>) -> bool {
    &&& forall|x: usize| #[trigger] promoted.contains(x) ==> is_candidate(blocks, x) && promotable_reg(blocks, x, rows)
    &&& forall|x: usize|
        is_candidate(blocks, x) && promotable_reg(blocks, x, rows) && count_true(#[trigger] def_flags(blocks, x)) > 1
            ==> promoted.contains(x)
    &&& forall|x: usize|
        is_candidate(blocks, x) && promotable_reg(blocks, x, rows) && count_true(#[trigger] def_flags(blocks, x)) <= 1
            ==> (promoted.contains(x) <==> single_def_regs(blocks, rows).len() <= SINGLE_DEF_LIMIT)
}

/// The promotable `i32` slots that at most one block stores through.
pub open spec fn single_def_regs(blocks: Seq<BasicBlock>, rows: Seq<Seq<bool>>) -> Set<usize> {
    Set::new(
        |x: usize|
            is_candidate(blocks, x) && promotable_reg(blocks, x, rows) && count_true(def_flags(blocks, x)) <= 1,
    )
}

/// The registers of the first `k` usages that are promotable with a single definition.
pub open spec fn single_vars(us: Seq<VarUsage>, rows: Seq<Seq<bool>>, k: int) -> Set<usize> {
    Set::new(|x: usize| exists|i: int| 0 <= i < k && #[trigger] us[i].var == x && promotable(us[i], rows) && single_def(us[i]))
}

proof fn lemma_single_count(us: Seq<VarUsage>, rows: Seq<Seq<bool>>, k: int)
    requires
        0 <= k <= us.len(),
        forall|a: int, c: int| 0 <= a < c < us.len() ==> (#[trigger] us[a]).var != (#[trigger] us[c]).var,
    ensures
        single_vars(us, rows, k).finite(),
        single_count(us, rows, k) == single_vars(us, rows, k).len(),
    decreases k,
{
    if k == 0 {
        assert(single_vars(us, rows, 0) =~= Set::<usize>::empty());
    } else {
        lemma_single_count(us, rows, k - 1);
        let prev = single_vars(us, rows, k - 1);
        let cur = single_vars(us, rows, k);
        let x = us[k - 1].var;
        if promotable(us[k - 1], rows) && single_def(us[k - 1]) {
            assert(cur =~= prev.insert(x)) by {
                assert forall|y: usize| cur.contains(y) implies prev.insert(x).contains(y) by {
                    let i = choose|i: int| 0 <= i < k && #[trigger] us[i].var == y && promotable(us[i], rows) && single_def(us[i]);
                    if i < k - 1 {
                        assert(prev.contains(y));
                    }
                }
                assert forall|y: usize| prev.insert(x).contains(y) implies cur.contains(y) by {
                    if y == x {
                        assert(us[k - 1].var == y);
                    } else {
                        let i = choose|i: int| 0 <= i < k - 1 && #[trigger] us[i].var == y && promotable(us[i], rows) && single_def(us[i]);
                        assert(us[i].var == y);
                    }
                }
            }
            assert(!prev.contains(x)) by {
                if prev.contains(x) {
                    let i = choose|i: int| 0 <= i < k - 1 && #[trigger] us[i].var == x && promotable(us[i], rows) && single_def(us[i]);
                    assert(us[i].var != us[k - 1].var);
                }
            }
        } else {
            assert(cur =~= prev) by {
                assert forall|y: usize| cur.contains(y) implies prev.contains(y) by {
                    let i = choose|i: int| 0 <= i < k && #[trigger] us[i].var == y && promotable(us[i], rows) && single_def(us[i]);
                    assert(i != k - 1);
                }
                assert forall|y: usize| prev.contains(y) implies cur.contains(y) by {
                    let i = choose|i: int| 0 <= i < k - 1 && #[trigger] us[i].var == y && promotable(us[i], rows) && single_def(us[i]);
                    assert(us[i].var == y);
                }
            }
        }
    }
}

/// `new` is `old` after promotion to SSA form: for the dominator sets of the
/// control-flow graph, a choice of promoted registers as `promotion_choice`
/// says, and PHIs that each define a new register numbered in `[lo, hi)`
/// for a promoted register, with incoming values from predecessors, every
/// block of `new` is the matching block of `old` with its PHIs first and its
/// remaining statements renamed: only a read of a register that a removed
/// load wrote may change, and then to a value stored through a promoted
/// register, a PHI's register or 0, which are also the PHIs' incoming values.
pub open spec fn mem2reg_result(old: Seq<BasicBlock>, new: Seq<BasicBlock>, lo: int, hi: int) -> bool {
    exists|promoted: Seq<usize>, nodes: Seq<Seq<PhiInfo>>, rows: Seq<Seq<bool>>, reach: Seq<bool>|
        #![trigger dominance_of(old, rows, reach), promotion_choice(old, promoted, rows), fresh_regs(nodes, lo, hi)]
        {
            &&& dominance_of(old, rows, reach)
            &&& promotion_choice(old, promoted, rows)
            &&& nodes.len() == old.len()
            &&& new.len() == old.len()
            &&& forall|b: int| 0 <= b < old.len() ==> promoted_block(
                old[b],
                #[trigger] new[b],
                nodes[b],
                promoted,
                loaded_regs(old, promoted),
                promoted_values(old, promoted, nodes),
            )
            &&& forall|b: int, k: int, j: int|
                0 <= b < nodes.len() && 0 <= k < nodes[b].len() && 0 <= j < nodes[b][k].incomings@.len()
                    ==> promoted_values(old, promoted, nodes).contains((#[trigger] nodes[b][k].incomings@[j]).1)
            &&& fresh_regs(nodes, lo, hi)
            &&& forall|b: int, k: int| 0 <= b < nodes.len() && 0 <= k < nodes[b].len() ==> promoted.contains((#[trigger] nodes[b][k]).var)
            &&& incomings_from_preds(nodes, old.map_values(|bb: BasicBlock| bb.label), block_succs(old))
            &&& forall|b: int, k: int|
                0 <= b < nodes.len() && 0 <= k < nodes[b].len() ==> (#[trigger] nodes[b][k]).incomings@.len() == cfg_preds(old)[b].len()
            &&& forall|x: usize| #[trigger] promoted.contains(x) ==> phis_at_frontiers(old, x, nodes, rows, reach)
            &&& renamed_along(old, new, nodes, promoted, rows)
            &&& hi == lo + phi_count(nodes)
        }
}

/// Each block of `new` holds, after its PHIs `phis[b]`, the statements of
/// `old[b]` renamed exactly from the state `entry[b]` (after the PHIs), and
/// block `b` was entered as `entered_from` says through `parent`.
pub open spec fn renamed_with(
    old: Seq<BasicBlock>,
    new: Seq<BasicBlock>,
    phis: Seq<Seq<PhiInfo>>,
    promoted: Seq<usize>,
    rows: Seq<Seq<bool>>,
    parent: Seq<int>,
    entry: Seq<RenameState>,
) -> bool {
    forall|b: int|
        0 <= b < old.len() ==> renamed_exactly(
            (#[trigger] new[b]).stmts@.skip(phis[b].len() as int),
            old[b].stmts@,
            promoted,
            phis_state(entry[b], phis[b], promoted),
        ) && entered_from(old, phis, promoted, rows, parent, entry, b)
}

/// `inc` is what a PHI for register `x` in block `s` takes from some block
/// of `blocks`, as `incoming_from` says.
pub open spec fn from_block(
    blocks: Seq<BasicBlock>,
    phis: Seq<Seq<PhiInfo>>,
    promoted: Seq<usize>,
    entry: Seq<RenameState>,
    s: int,
    x: usize,
    inc: (BlockLabel, Operand),
) -> bool {
    exists|p: int| #[trigger] incoming_from(blocks, phis, promoted, entry, s, x, inc, p)
}

/// Each incoming value of each PHI in `phis` is, as `incoming_from` says,
/// the value of its register at the end of a predecessor with that label.
pub open spec fn incomings_with(
    old: Seq<BasicBlock>,
    phis: Seq<Seq<PhiInfo>>,
    promoted: Seq<usize>,
    entry: Seq<RenameState>,
) -> bool {
    forall|s: int, k: int, j: int|
        0 <= s < phis.len() && 0 <= k < phis[s].len() && 0 <= j < phis[s][k].incomings@.len() ==> from_block(
            old,
            phis,
            promoted,
            entry,
            s,
            phis[s][k].var,
            #[trigger] phis[s][k].incomings@[j],
        )
}

/// The blocks of `new` are those of `old` renamed along the dominator tree:
/// each from the state in which an immediate dominator of it is left, or
/// from the empty state; and each PHI takes from each predecessor the value
/// its register has at the end of that predecessor.
pub open spec fn renamed_along(
    old: Seq<BasicBlock>,
    new: Seq<BasicBlock>,
    phis: Seq<Seq<PhiInfo>>,
    promoted: Seq<usize>,
    rows: Seq<Seq<bool>>,
) -> bool {
    exists|parent: Seq<int>, entry: Seq<RenameState>|
        parent.len() == old.len() && entry.len() == old.len() && #[trigger] renamed_with(old, new, phis, promoted, rows, parent, entry)
            && incomings_with(old, phis, promoted, entry)
}

/// PHIs with the same registers and destinations give the same state.
proof fn lemma_phis_state_shape(st: RenameState, a: Seq<PhiInfo>, b: Seq<PhiInfo>, promoted: Seq<usize>)
    requires
        a.len() == b.len(),
        forall|k: int| 0 <= k < a.len() ==> (#[trigger] a[k]).var == b[k].var && a[k].dst == b[k].dst,
    ensures
        phis_state(st, a, promoted) == phis_state(st, b, promoted),
    decreases a.len(),
{
    if a.len() > 0 {
        let (da, db) = (a.drop_last(), b.drop_last());
        assert forall|k: int| 0 <= k < da.len() implies (#[trigger] da[k]).var == db[k].var && da[k].dst == db[k].dst by {
            assert(da[k] == a[k] && db[k] == b[k]);
        }
        lemma_phis_state_shape(st, da, db, promoted);
        assert(a.last() == a[a.len() - 1] && b.last() == b[b.len() - 1]);
    }
}

proof fn lemma_renamed_with_shape(
    old: Seq<BasicBlock>,
    new: Seq<BasicBlock>,
    pa: Seq<Seq<PhiInfo>>,
    pb: Seq<Seq<PhiInfo>>,
    promoted: Seq<usize>,
    rows: Seq<Seq<bool>>,
    parent: Seq<int>,
    entry: Seq<RenameState>,
)
    requires
        renamed_with(old, new, pa, promoted, rows, parent, entry),
        same_phi_shape(pb, pa),
        pa.len() == old.len(),
    ensures
        renamed_with(old, new, pb, promoted, rows, parent, entry),
{
    assert forall|b: int| 0 <= b < old.len() implies renamed_exactly(
        (#[trigger] new[b]).stmts@.skip(pb[b].len() as int),
        old[b].stmts@,
        promoted,
        phis_state(entry[b], pb[b], promoted),
    ) && entered_from(old, pb, promoted, rows, parent, entry, b) by {
        assert(renamed_exactly(new[b].stmts@.skip(pa[b].len() as int), old[b].stmts@, promoted, phis_state(entry[b], pa[b], promoted))
            && entered_from(old, pa, promoted, rows, parent, entry, b));
        lemma_phis_state_shape(entry[b], pb[b], pa[b], promoted);
        if parent[b] >= 0 {
            let q = parent[b];
            lemma_phis_state_shape(entry[q], pb[q], pa[q], promoted);
            assert(exit_state(old, pb, promoted, entry[q], q) == exit_state(old, pa, promoted, entry[q], q));
        }
    }
}

proof fn lemma_state_after_none(stmts: Seq<Stmt>, st: RenameState, n: int)
    requires
        0 <= n <= stmts.len(),
    ensures
        state_after(stmts, Seq::empty(), st, n) == st,
    decreases n,
{
    if n > 0 {
        lemma_state_after_none(stmts, st, n - 1);
    }
}

proof fn lemma_kept_with_states_none(stmts: Seq<Stmt>, st: RenameState, n: int)
    requires
        0 <= n <= stmts.len(),
    ensures
        kept_with_states(stmts, Seq::empty(), st, n).len() == n,
        forall|i: int| 0 <= i < n ==> #[trigger] kept_with_states(stmts, Seq::empty(), st, n)[i] == (stmts[i], st),
    decreases n,
{
    if n > 0 {
        lemma_kept_with_states_none(stmts, st, n - 1);
        lemma_state_after_none(stmts, st, n - 1);
        assert(kept(stmts[n - 1], Seq::empty()));
    }
}

proof fn lemma_operand_refl(o: Operand)
    ensures
        same_operand(o, o),
        read_exact(o, o, Seq::empty()),
{
    lemma_same_operand_props(o, o, o);
}

/// With nothing recorded, a statement reads as itself.
proof fn lemma_same_but_reads_refl(s: Stmt)
    ensures
        same_but_reads(s, s, Seq::empty()),
{
    match s.inner {
        StmtInner::Alloca(x) => lemma_operand_refl(x.dst),
        StmtInner::Load(x) => {
            lemma_operand_refl(x.dst);
            lemma_operand_refl(x.ptr);
        },
        StmtInner::Store(x) => {
            lemma_operand_refl(x.src);
            lemma_operand_refl(x.ptr);
        },
        StmtInner::Gep(x) => {
            lemma_operand_refl(x.new_ptr);
            lemma_operand_refl(x.base_ptr);
            lemma_operand_refl(x.index);
        },
        StmtInner::BiOp(x) => {
            lemma_operand_refl(x.dst);
            lemma_operand_refl(x.left);
            lemma_operand_refl(x.right);
        },
        StmtInner::Cmp(x) => {
            lemma_operand_refl(x.dst);
            lemma_operand_refl(x.left);
            lemma_operand_refl(x.right);
        },
        StmtInner::CJump(x) => lemma_operand_refl(x.cond),
        StmtInner::Call(x) => {
            if x.result is Some {
                lemma_operand_refl(x.result.unwrap());
            }
            assert forall|k: int| 0 <= k < x.args@.len() implies read_exact(#[trigger] x.args@[k], x.args@[k], Seq::empty()) by {
                lemma_operand_refl(x.args@[k]);
            }
        },
        StmtInner::Return(x) => {
            if x.val is Some {
                lemma_operand_refl(x.val.unwrap());
            }
        },
        StmtInner::Phi(x) => {
            lemma_operand_refl(x.dst);
            assert forall|k: int| 0 <= k < x.incomings@.len() implies (#[trigger] x.incomings@[k]).0 == x.incomings@[k].0
                && read_exact(x.incomings@[k].1, x.incomings@[k].1, Seq::empty()) by {
                lemma_operand_refl(x.incomings@[k].1);
            }
        },
        _ => {},
    }
}

/// With nothing promoted, renaming keeps every statement as it is.
proof fn lemma_state_after_nothing(stmts: Seq<Stmt>, m: int)
    ensures
        state_after(stmts, Seq::empty(), empty_state(0), m) == empty_state(0),
    decreases m,
{
    if m > 0 {
        lemma_state_after_nothing(stmts, m - 1);
        let prev = state_after(stmts, Seq::empty(), empty_state(0), m - 1);
        match stmts[m - 1].inner {
            StmtInner::Store(x) => {
                assert(!is_promoted(Seq::empty(), x.ptr.spec_vreg()));
            },
            StmtInner::Load(x) => {
                assert(!is_promoted(Seq::empty(), x.ptr.spec_vreg()));
            },
            _ => {},
        }
    }
}

proof fn lemma_renamed_nothing(stmts: Seq<Stmt>)
    ensures
        renamed_exactly(stmts, stmts, Seq::empty(), empty_state(0)),
{
    lemma_kept_with_states_none(stmts, empty_state(0), stmts.len() as int);
    assert forall|i: int| 0 <= i < stmts.len() implies same_but_reads(
        kept_with_states(stmts, Seq::empty(), empty_state(0), stmts.len() as int)[i].0,
        #[trigger] stmts[i],
        kept_with_states(stmts, Seq::empty(), empty_state(0), stmts.len() as int)[i].1.aliases,
    ) by {
        lemma_same_but_reads_refl(stmts[i]);
    }
}

/// Which blocks load through register `x` before storing through it.
pub open spec fn lbs_flags(blocks: Seq<BasicBlock>, x: usize) -> Seq<bool> {
    Seq::new(blocks.len(), |b: int| load_before_store(block_ops(blocks[b].stmts@), x))
}

/// Whether register `x` is live on entry to each block (the least solution
/// of the liveness equations of the control-flow graph).
pub open spec fn reg_live_in(blocks: Seq<BasicBlock>, x: usize) -> Seq<bool> {
    let succs = block_succs(blocks);
    let out = least_live_out(models(lbs_flags(blocks, x)), models(def_flags(blocks, x)), succs);
    Seq::new(blocks.len(), |y: int| lbs_flags(blocks, x)[y] || (out[y].contains(0usize) && !def_flags(blocks, x)[y]))
}

/// The PHIs for register `x`: when it is loaded somewhere, exactly at the
/// blocks where it is live that lie in the dominance frontier of a block
/// that stores through it or has a PHI for it; none when it is never loaded.
pub open spec fn phis_at_frontiers(
    blocks: Seq<BasicBlock>,
    x: usize,
    nodes: Seq<Seq<PhiInfo>>,
    rows: Seq<Seq<bool>>,
    reach: Seq<bool>,
) -> bool {
    let n = blocks.len();
    let live = reg_live_in(blocks, x);
    let preds = cfg_preds(blocks);
    let loaded = exists|b: int| 0 <= b < n && has_op(block_ops(#[trigger] blocks[b].stmts@), x, OperandRole::LoadPtr);
    &&& !loaded ==> forall|y: int| 0 <= y < n ==> !has_phi_for(#[trigger] nodes[y], x)
    &&& loaded ==> forall|y: int|
        0 <= y < n && #[trigger] has_phi_for(nodes[y], x) ==> live[y] && exists|b: int|
            0 <= b < n && (def_flags(blocks, x)[b] || has_phi_for(nodes[b], x)) && #[trigger] in_frontier(rows, preds, reach, b, y)
    &&& loaded ==> forall|b: int, y: int|
        0 <= b < n && 0 <= y < n && (def_flags(blocks, x)[b] || has_phi_for(nodes[b], x)) && #[trigger] in_frontier(
            rows,
            preds,
            reach,
            b,
            y,
        ) && live[y] ==> has_phi_for(nodes[y], x)
}

/// What promotion needs of a function's blocks: jumps name labels of the
/// function, and the counter of new registers cannot overflow.
pub open spec fn mem2reg_ready(blocks: Seq<BasicBlock>, next_vreg: usize) -> bool {
    &&& jumps_resolved(blocks)
    &&& next_vreg + stmt_count(blocks) * blocks.len() <= usize::MAX
}

proof fn lemma_same_shape_has_phi(fin: Seq<Seq<PhiInfo>>, placed: Seq<Seq<PhiInfo>>, y: int, x: usize)
    requires
        same_phi_shape(fin, placed),
        0 <= y < placed.len(),
    ensures
        has_phi_for(fin[y], x) == has_phi_for(placed[y], x),
{
    if has_phi_for(fin[y], x) {
        let k = choose|k: int| 0 <= k < fin[y].len() && (#[trigger] fin[y][k]).var == x;
        assert(placed[y][k].var == x);
    }
    if has_phi_for(placed[y], x) {
        let k = choose|k: int| 0 <= k < placed[y].len() && (#[trigger] placed[y][k]).var == x;
        assert(fin[y][k].var == x);
    }
}

proof fn lemma_phis_at_frontiers(
    bs: Seq<BasicBlock>,
    usage: Seq<VarUsage>,
    flags: Seq<bool>,
    i: int,
    placed: Seq<Seq<PhiInfo>>,
    fin: Seq<Seq<PhiInfo>>,
    dom: DominatorInfo,
    graph: Graph,
    lo: int,
    hi: int,
)
    requires
        0 <= i < usage.len(),
        flags.len() == usage.len(),
        flags[i],
        forall|j: int| 0 <= j < usage.len() ==> usage_of(#[trigger] usage[j], bs),
        forall|a: int, c: int| 0 <= a < c < usage.len() ==> (#[trigger] usage[a]).var != (#[trigger] usage[c]).var,
        all_phis_placed(usage, flags, placed, graph, dom, lo, hi),
        same_phi_shape(fin, placed),
        placed.len() == bs.len(),
        dom.describes(graph),
        graph.succ_seqs() == block_succs(bs),
        graph.pred_seqs() == cfg_preds(bs),
    ensures
        phis_at_frontiers(bs, usage[i].var, fin, dom.spec_rows(), dom.spec_reach()),
{
    let u = usage[i];
    let x = u.var;
    let n = bs.len();
    let rows = dom.spec_rows();
    let reach = dom.spec_reach();
    let preds = cfg_preds(bs);
    assert(usage_of(u, bs));
    assert(u.def_blocks@ =~= def_flags(bs, x));
    assert(u.load_before_store_blocks@ =~= lbs_flags(bs, x));
    assert(live_in_flags(u, graph.succ_seqs()) =~= reg_live_in(bs, x));
    assert forall|y: int| 0 <= y < n implies #[trigger] has_phi_for(fin[y], x) == has_phi_for(placed[y], x) by {
        lemma_same_shape_has_phi(fin, placed, y, x);
    }
    assert forall|b: int, y: int| 0 <= b < n && 0 <= y < n implies #[trigger] in_frontier(rows, preds, reach, b, y)
        == dom.spec_frontier()[b].contains(y as usize) by {
    }
    let loaded = exists|b: int| 0 <= b < n && has_op(block_ops(#[trigger] bs[b].stmts@), x, OperandRole::LoadPtr);
    assert(loaded == u.has_load);
    if u.has_load && flags[i] {
        assert(needs_phis(usage, flags, i));
        assert(phis_placed(u, placed, live_in_flags(u, graph.succ_seqs()), dom));
        assert forall|y: int|
            0 <= y < n && #[trigger] has_phi_for(fin[y], x) implies reg_live_in(bs, x)[y] && exists|b: int|
                0 <= b < n && (def_flags(bs, x)[b] || has_phi_for(fin[b], x)) && #[trigger] in_frontier(rows, preds, reach, b, y) by {
            assert(has_phi_for(placed[y], x));
            let b = choose|b: int|
                0 <= b < n && def_or_phi(u, placed, b) && #[trigger] dom.spec_frontier()[b].contains(y as usize);
            assert(has_phi_for(fin[b], x) == has_phi_for(placed[b], x));
            assert(in_frontier(rows, preds, reach, b, y));
        }
        assert forall|b: int, y: int|
            0 <= b < n && 0 <= y < n && (def_flags(bs, x)[b] || has_phi_for(fin[b], x)) && #[trigger] in_frontier(
                rows,
                preds,
                reach,
                b,
                y,
            ) && reg_live_in(bs, x)[y] implies has_phi_for(fin[y], x) by {
            assert(has_phi_for(fin[b], x) == has_phi_for(placed[b], x));
            assert(def_or_phi(u, placed, b));
            assert(dom.spec_frontier()[b].contains(y as usize));
            assert(live_in_flags(u, graph.succ_seqs())[y]);
            assert(has_phi_for(placed[y], x));
            assert(has_phi_for(fin[y], x) == has_phi_for(placed[y], x));
        }
        assert(phis_at_frontiers(bs, x, fin, rows, reach));
    }
    if !u.has_load {
        assert forall|y: int| 0 <= y < n implies !has_phi_for(#[trigger] fin[y], x) by {
            if has_phi_for(placed[y], x) {
                let k = choose|k: int| 0 <= k < placed[y].len() && (#[trigger] placed[y][k]).var == x;
                assert(needed_below(usage, flags, usage.len() as int, placed[y][k].var));
                let a = choose|a: int| 0 <= a < usage.len() && #[trigger] needs_phis(usage, flags, a) && usage[a].var == placed[y][k].var;
                if a != i {
                    if a < i {
                        assert(usage[a].var != usage[i].var);
                    } else {
                        assert(usage[i].var != usage[a].var);
                    }
                }
            }
        }
        assert(!loaded);
        assert(forall|y: int| 0 <= y < n ==> !has_phi_for(#[trigger] fin[y], x));
        assert(phis_at_frontiers(bs, x, fin, rows, reach));
    }
}

proof fn lemma_usage_facts(u: VarUsage, blocks: Seq<BasicBlock>, rows: Seq<Seq<bool>>)
    requires
        usage_of(u, blocks),
    ensures
        u.def_blocks@ == def_flags(blocks, u.var),
        promotable(u, rows) == promotable_reg(blocks, u.var, rows),
        single_def(u) == (count_true(def_flags(blocks, u.var)) <= 1),
{
    assert(u.def_blocks@ =~= def_flags(blocks, u.var));
    let x = u.var;
    if promotable(u, rows) {
        assert forall|b: int|
            0 <= b < blocks.len() && load_before_store(block_ops(#[trigger] blocks[b].stmts@), x) implies exists|d: int|
                0 <= d < blocks.len() && d != b && has_op(block_ops(blocks[d].stmts@), x, OperandRole::StorePtr) && #[trigger] rows[b][d] by {
            assert(u.load_before_store_blocks@[b]);
            let d = choose|d: int| 0 <= d < u.def_blocks@.len() && d != b && u.def_blocks@[d] && #[trigger] rows[b][d];
            assert(u.def_blocks@[d]);
        }
    }
    if promotable_reg(blocks, x, rows) {
        assert forall|b: int|
            0 <= b < u.load_before_store_blocks@.len() && #[trigger] u.load_before_store_blocks@[b] implies dominated_by_def(u, rows, b) by {
            assert(load_before_store(block_ops(blocks[b].stmts@), x));
            let d = choose|d: int|
                0 <= d < blocks.len() && d != b && has_op(block_ops(blocks[d].stmts@), x, OperandRole::StorePtr) && #[trigger] rows[b][d];
            assert(u.def_blocks@[d]);
        }
    }
}

proof fn lemma_kept_none(stmts: Seq<Stmt>)
    ensures
        kept_stmts(stmts, Seq::empty()) == stmts,
    decreases stmts.len(),
{
    if stmts.len() > 0 {
        lemma_kept_none(stmts.drop_last());
        assert(stmts.drop_last().push(stmts.last()) =~= stmts);
    }
}

proof fn lemma_same_but_uses_refl(s: Stmt, loaded: Set<usize>, vals: Set<Operand>)
    ensures
        same_but_uses(s, s, loaded, vals),
{
    match s.inner {
        StmtInner::Call(x) => {
            assert forall|k: int| 0 <= k < x.args@.len() implies read_after(#[trigger] x.args@[k], x.args@[k], loaded, vals) by {
                lemma_same_operand_props(x.args@[k], x.args@[k], x.args@[k]);
            }
        },
        StmtInner::Phi(x) => {
            assert forall|k: int| 0 <= k < x.incomings@.len() implies (#[trigger] x.incomings@[k]).0 == x.incomings@[k].0
                && read_after(x.incomings@[k].1, x.incomings@[k].1, loaded, vals) by {
                lemma_same_operand_props(x.incomings@[k].1, x.incomings@[k].1, x.incomings@[k].1);
            }
        },
        _ => {},
    }
}

proof fn lemma_cfg_preds(blocks: Seq<BasicBlock>, g: Graph)
    requires
        g.wf(),
        g.succ_seqs() == block_succs(blocks),
        block_succs(blocks).len() == blocks.len(),
    ensures
        g.pred_seqs() == cfg_preds(blocks),
{
    assert forall|s: int| 0 <= s < blocks.len() implies #[trigger] g.pred_seqs()[s] == cfg_preds(blocks)[s] by {
    }
    assert(g.pred_seqs() =~= cfg_preds(blocks));
}

impl Mem2RegPass {
    /// Promotes the function's `i32` stack slots whose loads always see a
    /// store, to SSA registers with PHIs at the joins.  A function without
    /// blocks, or whose blocks promote nothing, is left as it is.
    pub fn run(&self, func: &mut Function)
        requires
            old(func).blocks is Some && old(func).blocks.unwrap()@.len() > 0 ==> mem2reg_ready(
                old(func).blocks.unwrap()@,
                old(func).next_vreg,
            ),
        ensures
            final(func).identifier == old(func).identifier,
            final(func).arguments == old(func).arguments,
            final(func).local_variables == old(func).local_variables,
            final(func).next_vreg >= old(func).next_vreg,
            old(func).blocks is Some && old(func).blocks.unwrap()@.len() > 0 ==> final(func).blocks is Some
                && mem2reg_result(
                old(func).blocks.unwrap()@,
                final(func).blocks.unwrap()@,
                old(func).next_vreg as int,
                final(func).next_vreg as int,
            ),
            !(old(func).blocks is Some && old(func).blocks.unwrap()@.len() > 0) ==> final(func).blocks == old(func).blocks
                && final(func).next_vreg == old(func).next_vreg,
    {
        let blocks = match func.blocks.take() {
            Some(b) => b,
            None => {
                return;
            },
        };
        if blocks.len() == 0 {
            func.blocks = Some(blocks);
            return;
        }
        let ghost bs = blocks@;
        let n = blocks.len();
        let cfg = Cfg::from_blocks(blocks.as_slice());
        let dom_info = DominatorInfo::compute(cfg.graph());
        let candidates = collect_candidates(blocks.as_slice());
        let usage = analyze_usage(blocks.as_slice(), &candidates);
        let flags = promotable_vars(&usage, &dom_info);
        let ghost rows = dom_info.spec_rows();
        let ghost reach = dom_info.spec_reach();
        proof {
            lemma_cfg_preds(bs, cfg.spec_graph());
            assert(dominance_of(bs, rows, reach));
            assert forall|i: int| 0 <= i < usage@.len() implies (#[trigger] usage@[i]).def_blocks@.len() == dom_info.spec_len()
                && usage@[i].load_before_store_blocks@.len() == dom_info.spec_len() by {
                assert(usage_of(usage@[i], bs));
            }
        }
        let mut promoted: Vec<usize> = Vec::new();
        let mut i: usize = 0;
        while i < usage.len()
            invariant
                i <= usage@.len(),
                flags@.len() == usage@.len(),
                forall|j: int| 0 <= j < i && #[trigger] flags@[j] ==> promoted@.contains(usage@[j].var),
                forall|x: usize| #[trigger] promoted@.contains(x) ==> exists|j: int| 0 <= j < i && flags@[j] && usage@[j].var == x,
            decreases usage@.len() - i,
        {
            if flags[i] {
                promoted.push(usage[i].var);
                assert(promoted@.last() == usage@[i as int].var);
            }
            proof {
                assert forall|x: usize| #[trigger] promoted@.contains(x) implies exists|j: int| 0 <= j < i + 1 && flags@[j] && usage@[j].var == x by {
                    let k = choose|k: int| 0 <= k < promoted@.len() && promoted@[k] == x;
                    if flags@[i as int] && k == promoted@.len() - 1 {
                    } else {
                        assert(promoted@.drop_last()[k] == x || !flags@[i as int]);
                    }
                }
            }
            i += 1;
        }
        proof {
            assert forall|x: usize| #[trigger] promoted@.contains(x) implies is_candidate(bs, x) && promotable_reg(bs, x, rows) by {
                let j = choose|j: int| 0 <= j < usage@.len() && flags@[j] && usage@[j].var == x;
                assert(usage_of(usage@[j], bs));
                lemma_usage_facts(usage@[j], bs, rows);
                assert(candidates@.contains(x)) by {
                    assert(candidates@[j] == x);
                }
            }
            assert forall|x: usize|
                is_candidate(bs, x) && promotable_reg(bs, x, rows) && count_true(#[trigger] def_flags(bs, x)) > 1 implies promoted@.contains(x) by {
                assert(candidates@.contains(x));
                let j = choose|j: int| 0 <= j < candidates@.len() && candidates@[j] == x;
                assert(usage_of(usage@[j], bs));
                lemma_usage_facts(usage@[j], bs, rows);
                assert(promoted_flag(usage@, rows, j));
                assert(flags@[j]);
            }
            assert forall|a: int, c: int| 0 <= a < c < usage@.len() implies (#[trigger] usage@[a]).var != (#[trigger] usage@[c]).var by {
                assert(candidates@[a] != candidates@[c]);
            }
            lemma_single_count(usage@, rows, usage@.len() as int);
            assert(single_vars(usage@, rows, usage@.len() as int) =~= single_def_regs(bs, rows)) by {
                assert forall|x: usize| single_vars(usage@, rows, usage@.len() as int).contains(x) implies single_def_regs(bs, rows).contains(x) by {
                    let i = choose|i: int|
                        0 <= i < usage@.len() && #[trigger] usage@[i].var == x && promotable(usage@[i], rows) && single_def(usage@[i]);
                    assert(usage_of(usage@[i], bs));
                    lemma_usage_facts(usage@[i], bs, rows);
                    assert(candidates@[i] == x);
                    assert(candidates@.contains(x));
                }
                assert forall|x: usize| single_def_regs(bs, rows).contains(x) implies single_vars(usage@, rows, usage@.len() as int).contains(x) by {
                    assert(candidates@.contains(x));
                    let j = choose|j: int| 0 <= j < candidates@.len() && candidates@[j] == x;
                    assert(usage_of(usage@[j], bs));
                    lemma_usage_facts(usage@[j], bs, rows);
                    assert(usage@[j].var == x);
                }
            }
            assert forall|x: usize|
                is_candidate(bs, x) && promotable_reg(bs, x, rows) && count_true(#[trigger] def_flags(bs, x)) <= 1 implies (promoted@.contains(x)
                    <==> single_def_regs(bs, rows).len() <= SINGLE_DEF_LIMIT) by {
                assert(candidates@.contains(x));
                let j = choose|j: int| 0 <= j < candidates@.len() && candidates@[j] == x;
                assert(usage_of(usage@[j], bs));
                lemma_usage_facts(usage@[j], bs, rows);
                if promoted@.contains(x) {
                    let i = choose|i: int| 0 <= i < usage@.len() && flags@[i] && usage@[i].var == x;
                    assert(i == j) by {
                        if i != j {
                            if i < j {
                                assert(usage@[i].var != usage@[j].var);
                            } else {
                                assert(usage@[j].var != usage@[i].var);
                            }
                        }
                    }
                    assert(promoted_flag(usage@, rows, j));
                } else {
                    assert(!flags@[j]);
                }
            }
            assert(promotion_choice(bs, promoted@, rows));
        }
        if promoted.len() == 0 {
            func.blocks = Some(blocks);
            proof {
                let nodes = Seq::new(n as nat, |b: int| Seq::<PhiInfo>::empty());
                assert(promoted@ =~= Seq::<usize>::empty());
                let vals = promoted_values(bs, promoted@, nodes);
                assert forall|b: int| 0 <= b < bs.len() implies promoted_block(
                    bs[b],
                    #[trigger] bs[b],
                    nodes[b],
                    promoted@,
                    loaded_regs(bs, promoted@),
                    vals,
                ) by {
                    lemma_kept_none(bs[b].stmts@);
                    assert(bs[b].stmts@.skip(0) =~= bs[b].stmts@);
                    assert forall|k: int| 0 <= k < bs[b].stmts@.len() implies same_but_uses(
                        kept_stmts(bs[b].stmts@, promoted@)[k],
                        #[trigger] bs[b].stmts@.skip(0)[k],
                        loaded_regs(bs, promoted@),
                        vals,
                    ) by {
                        lemma_same_but_uses_refl(bs[b].stmts@[k], loaded_regs(bs, promoted@), vals);
                    }
                }
                assert(fresh_regs(nodes, func.next_vreg as int, func.next_vreg as int));
                assert(dominance_of(bs, rows, reach));
                lemma_phi_count_empty(nodes);
                let lv = dom_levels(rows);
                let par = Seq::new(
                    n as nat,
                    |b: int|
                        if has_idom(rows, lv, b) {
                            choose|d: int| #[trigger] is_idom_choice(rows, lv, b, d) && lv[d] < lv[b]
                        } else {
                            -1int
                        },
                );
                let ent = Seq::new(n as nat, |b: int| empty_state(0));
                assert forall|b: int| 0 <= b < bs.len() implies entered_from(bs, nodes, promoted@, rows, par, ent, b) by {
                    if has_idom(rows, lv, b) {
                        let d = par[b];
                        assert(is_idom_choice(rows, lv, b, d));
                        assert(rows.len() == n);
                        lemma_state_after_nothing(bs[d].stmts@, bs[d].stmts@.len() as int);
                        assert(nodes[d].len() == 0);
                        assert(promoted@ =~= Seq::<usize>::empty());
                        assert(exit_state(bs, nodes, promoted@, ent[d], d) == empty_state(0));
                    }
                }
                assert forall|b: int| 0 <= b < bs.len() implies renamed_exactly(
                    (#[trigger] bs[b]).stmts@.skip(nodes[b].len() as int),
                    bs[b].stmts@,
                    promoted@,
                    phis_state(ent[b], nodes[b], promoted@),
                ) && entered_from(bs, nodes, promoted@, rows, par, ent, b) by {
                    lemma_renamed_nothing(bs[b].stmts@);
                    assert(bs[b].stmts@.skip(0) =~= bs[b].stmts@);
                    assert(phis_state(ent[b], nodes[b], promoted@) == empty_state(0));
                }
                assert(renamed_with(bs, bs, nodes, promoted@, rows, par, ent));
                assert(incomings_with(bs, nodes, promoted@, ent));
                assert(renamed_along(bs, bs, nodes, promoted@, rows));
            }
            return;
        }
        let mut phis = PhiPlacement::new(n);
        let mut next_vreg = func.next_vreg;
        proof {
            assert forall|a: int, c: int| 0 <= a < c < usage@.len() implies (#[trigger] usage@[a]).var != (#[trigger] usage@[c]).var by {
                assert(candidates@[a] != candidates@[c]);
            }
            assert(candidates@.len() * n <= stmt_count(bs) * n) by (nonlinear_arith)
                requires
                    candidates@.len() <= stmt_count(bs);
        }
        place_phis(&usage, &flags, &mut phis, cfg.graph(), &dom_info, &mut next_vreg);
        let ghost placed = phis.spec_nodes();
        let mut renamer = Renamer::new(blocks.as_slice(), &cfg, &dom_info, phis, promoted);
        renamer.run();
        let ghost fin = renamer.phi_placement.spec_nodes();
        let ghost prom = renamer.promoted@;
        proof {
            assert(renamer.wf());
            assert forall|b: int, k: int| 0 <= b < fin.len() && 0 <= k < fin[b].len() implies (#[trigger] fin[b][k]).incomings@.len()
                == cfg_preds(bs)[b].len() by {
                lemma_edges_into_all(block_succs(bs), renamer.visited@, b as usize, n as int);
            }
            lemma_promoted_values_shape(bs, prom, fin, placed);
            assert(renamer.values() == promoted_values(bs, prom, fin));
            assert(renamer.loaded() == loaded_regs(bs, prom));
            assert forall|b: int, k: int, j: int|
                0 <= b < fin.len() && 0 <= k < fin[b].len() && 0 <= j < fin[b][k].incomings@.len()
                    implies promoted_values(bs, prom, fin).contains((#[trigger] fin[b][k].incomings@[j]).1) by {
                assert(renamer.values().contains(fin[b][k].incomings@[j].1));
            }
        }
        let ghost rpar = renamer.parent@;
        let ghost rent = renamer.entry@;
        let ghost rvis = renamer.visited@;
        proof {
            assert(incomings_exact(fin, bs, placed, prom, rent, rvis));
            assert(renamer.initial_phis@ == placed);
            assert forall|s: int, k: int, j: int| 0 <= s < fin.len() && 0 <= k < fin[s].len() && 0 <= j < fin[s][k].incomings@.len()
                implies from_block(bs, fin, prom, rent, s, fin[s][k].var, #[trigger] fin[s][k].incomings@[j]) by {
                let inc = fin[s][k].incomings@[j];
                assert(from_visited(bs, placed, prom, rent, rvis, s, fin[s][k].var, inc));
                let p = choose|p: int| 0 <= p < rvis.len() && rvis[p] && #[trigger] incoming_from(
                    bs,
                    placed,
                    prom,
                    rent,
                    s,
                    fin[s][k].var,
                    inc,
                    p,
                );
                assert(same_phi_shape(fin, placed));
                lemma_phis_state_shape(rent[p], fin[p], placed[p], prom);
                assert(exit_state(bs, fin, prom, rent[p], p) == exit_state(bs, placed, prom, rent[p], p));
                assert(incoming_from(bs, fin, prom, rent, s, fin[s][k].var, inc, p));
            }
            assert(incomings_with(bs, fin, prom, rent));
        }
        let ghost rinit = renamer.initial_phis@;
        let ghost rrows = renamer.dom_info.spec_rows();
        let new_blocks = renamer.finish();
        proof {
            assert(renamed_with(bs, new_blocks@, rinit, prom, rrows, rpar, rent));
            assert(same_phi_shape(fin, rinit));
            lemma_renamed_with_shape(bs, new_blocks@, rinit, fin, prom, rrows, rpar, rent);
            assert(rrows == rows);
            assert(renamed_along(bs, new_blocks@, fin, prom, rows));
            assert(same_phi_shape(fin, placed));
            assert forall|b: int, k: int| 0 <= b < fin.len() && 0 <= k < fin[b].len() implies phi_reg(#[trigger] fin[b][k]) == phi_reg(placed[b][k]) by {
            }
            assert(fresh_regs(fin, func.next_vreg as int, next_vreg as int)) by {
                assert forall|b1: int, k1: int, b2: int, k2: int|
                    0 <= b1 < fin.len() && 0 <= k1 < fin[b1].len() && 0 <= b2 < fin.len() && 0 <= k2 < fin[b2].len()
                        && (b1 != b2 || k1 != k2) implies phi_reg(#[trigger] fin[b1][k1]) != phi_reg(#[trigger] fin[b2][k2]) by {
                    assert(phi_reg(fin[b1][k1]) == phi_reg(placed[b1][k1]));
                    assert(phi_reg(fin[b2][k2]) == phi_reg(placed[b2][k2]));
                    assert(phi_reg(placed[b1][k1]) != phi_reg(placed[b2][k2]));
                }
                assert forall|b: int, k: int| 0 <= b < fin.len() && 0 <= k < fin[b].len() implies phi_reg(#[trigger] fin[b][k]) is Some && func.next_vreg <= phi_reg(
                    fin[b][k],
                ).unwrap() < next_vreg by {
                    assert(phi_reg(fin[b][k]) == phi_reg(placed[b][k]));
                    assert(phi_reg(placed[b][k]) is Some);
                }
            }
            assert forall|b: int, k: int| 0 <= b < fin.len() && 0 <= k < fin[b].len() implies prom.contains((#[trigger] fin[b][k]).var) by {
                assert(fin[b][k].var == placed[b][k].var);
                assert(needed_below(usage@, flags@, usage@.len() as int, placed[b][k].var));
                let a = choose|a: int| 0 <= a < usage@.len() && #[trigger] needs_phis(usage@, flags@, a) && usage@[a].var == placed[b][k].var;
                assert(flags@[a]);
            }
            assert(dominance_of(bs, rows, reach));
            assert(promotion_choice(bs, prom, rows));
            assert forall|j: int| 0 <= j < usage@.len() implies usage_of(#[trigger] usage@[j], bs) by {
            }
            assert forall|x: usize| #[trigger] prom.contains(x) implies phis_at_frontiers(bs, x, fin, rows, reach) by {
                let i = choose|i: int| 0 <= i < usage@.len() && flags@[i] && usage@[i].var == x;
                lemma_phis_at_frontiers(
                    bs,
                    usage@,
                    flags@,
                    i,
                    placed,
                    fin,
                    dom_info,
                    cfg.spec_graph(),
                    func.next_vreg as int,
                    next_vreg as int,
                );
            }
        }
        proof {
            let none = Seq::new(fin.len(), |y: int| false);
            lemma_count_true_none(none);
            assert forall|y: int| 0 <= y < placed.len() implies #[trigger] fin[y].len() == placed[y].len() + if none[y] { 1int } else { 0int } by {
            }
            lemma_phi_count_grow(placed, fin, none);
            assert(next_vreg == func.next_vreg + phi_count(fin));
        }
        func.blocks = Some(new_blocks);
        func.next_vreg = next_vreg;
    }
}

/// Decides `mem2reg_ready`.
pub fn mem2reg_ready_check(blocks: &[BasicBlock], next_vreg: usize) -> (r: bool)
    ensures
        r == mem2reg_ready(blocks@, next_vreg),
{
    if !jumps_are_resolved(blocks) {
        return false;
    }
    let n = blocks.len();
    if n == 0 {
        return true;
    }
    let count = match checked_stmt_total(blocks, 0) {
        Some(c) => c,
        None => {
            proof {
                assert(stmt_count(blocks@) * n >= stmt_count(blocks@)) by (nonlinear_arith)
                    requires
                        n >= 1;
            }
            return false;
        },
    };
    let prod = match count.checked_mul(n) {
        Some(p) => p,
        None => {
            return false;
        },
    };
    prod <= usize::MAX - next_vreg
}

} // verus!
