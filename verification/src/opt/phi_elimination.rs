//! PHI node elimination: each PHI destination gets a stack slot, is loaded
//! from it at the top of its block, and is stored on every incoming edge.

use vstd::prelude::*;
use std::collections::HashMap;
use super::cfg::{block_succs, jumps_are_resolved, jumps_resolved, Cfg};
use crate::common::graph::{count_in, label_map_of, lemma_label_map_key, node_labels, pred_list, repeat, succs_in_range, CfgNode};
use crate::common::text::{decimal, lemma_decimal_injective};
use crate::ir::function::{label_key, BasicBlock, BlockLabel, Function};
use crate::ir::stmt::{clone_incomings, same_incomings, same_stmt, AllocaStmt, CJumpStmt, JumpStmt, LoadStmt, PhiStmt, Stmt, StmtInner, StoreStmt};
use crate::ir::types::Dtype;
use crate::ir::value::{lemma_same_operand_props, same_operand, Integer, LocalVariable, Operand};

verus! {

broadcast use vstd::std_specs::hash::group_hash_axioms;

/// No statement of the list is a PHI.
pub open spec fn no_phi(stmts: Seq<Stmt>) -> bool {
    forall|k: int| 0 <= k < stmts.len() ==> !((#[trigger] stmts[k]).inner is Phi)
}

/// The statements of `stmts` that are not PHIs, in order.
pub open spec fn non_phi_stmts(stmts: Seq<Stmt>) -> Seq<Stmt>
    decreases stmts.len(),
{
    if stmts.len() == 0 {
        Seq::empty()
    } else {
        let k = non_phi_stmts(stmts.drop_last());
        if stmts.last().inner is Phi {
            k
        } else {
            k.push(stmts.last())
        }
    }
}

/// The PHIs among `stmts`, in order.
pub open spec fn phis_of(stmts: Seq<Stmt>) -> Seq<PhiStmt>
    decreases stmts.len(),
{
    if stmts.len() == 0 {
        Seq::empty()
    } else {
        let k = phis_of(stmts.drop_last());
        match stmts.last().inner {
            StmtInner::Phi(p) => k.push(p),
            _ => k,
        }
    }
}

/// `a` is a copy of PHI `b`.
pub open spec fn same_phi(a: PhiStmt, b: PhiStmt) -> bool {
    same_operand(a.dst, b.dst) && same_incomings(a.incomings@, b.incomings@)
}

/// Only allocas, loads and stores.
pub open spec fn data_only(s: Seq<Stmt>) -> bool {
    forall|k: int|
        0 <= k < s.len() ==> (#[trigger] s[k]).inner is Alloca || s[k].inner is Load || s[k].inner is Store
}

/// `b` is a copy of `a`, except that a jump may go to other labels.
pub open spec fn same_but_targets(a: Stmt, b: Stmt) -> bool {
    match (a.inner, b.inner) {
        (StmtInner::Jump(_), StmtInner::Jump(_)) => true,
        (StmtInner::CJump(x), StmtInner::CJump(y)) => crate::ir::value::same_operand(x.cond, y.cond),
        _ => same_stmt(b, a),
    }
}

/// `stmts` is `body`, each statement kept in order (a jump may go
/// elsewhere), with only allocas, loads and stores added at the start and at
/// one place among them.
pub open spec fn rebuilt_from(body: Seq<Stmt>, stmts: Seq<Stmt>) -> bool {
    exists|pre: Seq<Stmt>, kept: Seq<Stmt>, mid: Seq<Stmt>, pos: int|
        #![trigger data_only(pre), data_only(mid), kept.subrange(0, pos)]
        {
            &&& data_only(pre)
            &&& data_only(mid)
            &&& 0 <= pos <= kept.len()
            &&& kept.len() == body.len()
            &&& forall|k: int| 0 <= k < body.len() ==> same_but_targets(body[k], #[trigger] kept[k])
            &&& stmts == pre + kept.subrange(0, pos) + mid + kept.subrange(pos, kept.len() as int)
        }
}

/// Block `new_b` is `old_b` without its PHIs: same label, and the other
/// statements rebuilt as `rebuilt_from` says.
pub open spec fn phi_eliminated_block(old_b: BasicBlock, new_b: BasicBlock) -> bool {
    &&& new_b.label == old_b.label
    &&& rebuilt_from(non_phi_stmts(old_b.stmts@), new_b.stmts@)
}

/// What is rebuilt from a copy of a body (up to jump targets) is rebuilt from
/// the body itself.
proof fn lemma_rebuilt_from_earlier(b0: Seq<Stmt>, b1: Seq<Stmt>, s: Seq<Stmt>)
    requires
        rebuilt_from(b1, s),
        b0.len() == b1.len(),
        forall|k: int| 0 <= k < b0.len() ==> same_but_targets(b0[k], #[trigger] b1[k]),
    ensures
        rebuilt_from(b0, s),
{
    let (pre, kept, mid, pos) = choose|pre: Seq<Stmt>, kept: Seq<Stmt>, mid: Seq<Stmt>, pos: int|
        #![trigger data_only(pre), data_only(mid), kept.subrange(0, pos)]
        {
            &&& data_only(pre)
            &&& data_only(mid)
            &&& 0 <= pos <= kept.len()
            &&& kept.len() == b1.len()
            &&& forall|k: int| 0 <= k < b1.len() ==> same_but_targets(b1[k], #[trigger] kept[k])
            &&& s == pre + kept.subrange(0, pos) + mid + kept.subrange(pos, kept.len() as int)
        };
    assert forall|k: int| 0 <= k < b0.len() implies same_but_targets(b0[k], #[trigger] kept[k]) by {
        assert(same_but_targets(b0[k], b1[k]));
        assert(same_but_targets(b1[k], kept[k]));
        lemma_same_but_targets_trans(b0[k], b1[k], kept[k]);
    }
    assert(data_only(pre) && data_only(mid) && kept.subrange(0, pos) == kept.subrange(0, pos));
}

/// Names the parts that show `rebuilt_from`.
proof fn lemma_rebuilt_from_intro(body: Seq<Stmt>, stmts: Seq<Stmt>, pre: Seq<Stmt>, kept: Seq<Stmt>, mid: Seq<Stmt>, pos: int)
    requires
        data_only(pre),
        data_only(mid),
        0 <= pos <= kept.len(),
        kept.len() == body.len(),
        forall|k: int| 0 <= k < body.len() ==> same_but_targets(body[k], #[trigger] kept[k]),
        stmts == pre + kept.subrange(0, pos) + mid + kept.subrange(pos, kept.len() as int),
    ensures
        rebuilt_from(body, stmts),
{
    assert(data_only(pre) && data_only(mid) && kept.subrange(0, pos) == kept.subrange(0, pos));
}

/// `stmts` is `pre`, then `body` with `mid` placed before its last
/// terminator (at its end when it has none), each part as copies.
pub open spec fn laid_out(body: Seq<Stmt>, stmts: Seq<Stmt>, pre: Seq<Stmt>, mid: Seq<Stmt>) -> bool {
    exists|pre2: Seq<Stmt>, kept: Seq<Stmt>, mid2: Seq<Stmt>, pos: int|
        #![trigger copies(pre2, pre), copies(mid2, mid), kept.subrange(0, pos)]
        {
            &&& copies(pre2, pre)
            &&& copies(mid2, mid)
            &&& copies(kept, body)
            &&& 0 <= pos <= kept.len()
            &&& stmts == pre2 + kept.subrange(0, pos) + mid2 + kept.subrange(pos, kept.len() as int)
            &&& mid.len() > 0 ==> last_terminator_at(kept, pos)
        }
}

/// Position `pos` of `s` holds its last terminator, or `pos` is its end and
/// it has none.
pub open spec fn last_terminator_at(s: Seq<Stmt>, pos: int) -> bool {
    ||| 0 <= pos < s.len() && s[pos].spec_is_terminator() && forall|t: int| pos < t < s.len() ==> !(#[trigger] s[t]).spec_is_terminator()
    ||| pos == s.len() && forall|t: int| 0 <= t < s.len() ==> !(#[trigger] s[t]).spec_is_terminator()
}

/// The index of the entry block from position `t` on: the first block with a
/// function's label, or 0.
pub open spec fn entry_from(labels: Seq<BlockLabel>, t: int) -> int
    decreases labels.len() - t,
{
    if t < 0 || t >= labels.len() {
        0
    } else if labels[t] is Function {
        t
    } else {
        entry_from(labels, t + 1)
    }
}

/// The index of the entry block: the first with a function's label, or 0.
pub open spec fn entry_index(labels: Seq<BlockLabel>) -> int {
    entry_from(labels, 0)
}

/// The allocas that open block `i`: all of them in the entry block, none elsewhere.
pub open spec fn entry_allocas(labels: Seq<BlockLabel>, i: int, allocas: Seq<Stmt>) -> Seq<Stmt> {
    if i == entry_index(labels) {
        allocas
    } else {
        Seq::empty()
    }
}

/// The stores queued for block `i`, if any.
pub open spec fn pending_of(pend: Seq<(usize, Vec<Stmt>)>, i: int) -> Seq<Stmt> {
    if exists|k: int| 0 <= k < pend.len() && (#[trigger] pend[k]).0 == i {
        pend[choose|k: int| 0 <= k < pend.len() && (#[trigger] pend[k]).0 == i].1@
    } else {
        Seq::empty()
    }
}

proof fn lemma_pending_of(pend: Seq<(usize, Vec<Stmt>)>, i: int, k: int)
    requires
        0 <= k < pend.len(),
        pend[k].0 == i,
        forall|k1: int, k2: int|
            0 <= k1 < pend.len() && 0 <= k2 < pend.len() && k1 != k2 ==> (#[trigger] pend[k1]).0 != (#[trigger] pend[k2]).0,
    ensures
        pending_of(pend, i) == pend[k].1@,
{
    let c = choose|c: int| 0 <= c < pend.len() && (#[trigger] pend[c]).0 == i;
    assert(pend[c].0 == pend[k].0);
}

proof fn lemma_pending_of_none(pend: Seq<(usize, Vec<Stmt>)>, i: int)
    requires
        forall|k: int| 0 <= k < pend.len() ==> (#[trigger] pend[k]).0 != i,
    ensures
        pending_of(pend, i) == Seq::<Stmt>::empty(),
{
}

/// Where no earlier block is an entry, the entry is found from `t` on.
proof fn lemma_entry_from(labels: Seq<BlockLabel>, t0: int, t: int)
    requires
        0 <= t0 <= t <= labels.len(),
        forall|j: int| t0 <= j < t ==> !((#[trigger] labels[j]) is Function),
    ensures
        entry_from(labels, t0) == entry_from(labels, t),
    decreases t - t0,
{
    if t0 < t {
        lemma_entry_from(labels, t0 + 1, t);
    }
}

proof fn lemma_copies_concat(a1: Seq<Stmt>, b1: Seq<Stmt>, a2: Seq<Stmt>, b2: Seq<Stmt>)
    requires
        copies(a1, b1),
        copies(a2, b2),
    ensures
        copies(a1 + a2, b1 + b2),
{
    assert forall|k: int| 0 <= k < (a1 + a2).len() implies same_stmt(#[trigger] (a1 + a2)[k], (b1 + b2)[k]) by {
        if k < a1.len() {
            assert((a1 + a2)[k] == a1[k]);
            assert((b1 + b2)[k] == b1[k]);
        } else {
            assert((a1 + a2)[k] == a2[k - a1.len()]);
            assert((b1 + b2)[k] == b2[k - b1.len()]);
        }
    }
}

/// Names the parts that show `laid_out`.
proof fn lemma_laid_out_intro(
    body: Seq<Stmt>,
    stmts: Seq<Stmt>,
    pre: Seq<Stmt>,
    mid: Seq<Stmt>,
    pre2: Seq<Stmt>,
    kept: Seq<Stmt>,
    mid2: Seq<Stmt>,
    pos: int,
)
    requires
        copies(pre2, pre),
        copies(mid2, mid),
        copies(kept, body),
        0 <= pos <= kept.len(),
        stmts == pre2 + kept.subrange(0, pos) + mid2 + kept.subrange(pos, kept.len() as int),
        mid.len() > 0 ==> last_terminator_at(kept, pos),
    ensures
        laid_out(body, stmts, pre, mid),
{
    assert(copies(pre2, pre) && copies(mid2, mid) && kept.subrange(0, pos) == kept.subrange(0, pos));
}

/// The jump targets of a statement: that of a jump, or a branch's true
/// then false label.
pub open spec fn jump_targets(s: Stmt) -> Seq<BlockLabel> {
    match s.inner {
        StmtInner::Jump(j) => seq![j.target],
        StmtInner::CJump(j) => seq![j.true_label, j.false_label],
        _ => Seq::empty(),
    }
}

/// Some split of `splits` is the edge `i -> s`.
pub open spec fn has_split(splits: Seq<(usize, usize, BlockLabel, Vec<Stmt>)>, i: int, s: int) -> bool {
    exists|k: int| 0 <= k < splits.len() && (#[trigger] splits[k]).0 as int == i && splits[k].1 as int == s
}

/// The label of the split of edge `i -> s`.
pub open spec fn split_label(splits: Seq<(usize, usize, BlockLabel, Vec<Stmt>)>, i: int, s: int) -> BlockLabel {
    splits[choose|k: int| 0 <= k < splits.len() && (#[trigger] splits[k]).0 as int == i && splits[k].1 as int == s].2
}

/// After the splits, target `u` of branch `t` of block `i` (which goes to
/// block `succ[u]`) is the label of the split of that edge, if there is
/// one, else what it was; the condition stays.
proof fn lemma_retarget_all_targets(
    t: Stmt,
    splits: Seq<(usize, usize, BlockLabel, Vec<Stmt>)>,
    labels: Seq<BlockLabel>,
    i: int,
    succ: Seq<usize>,
)
    requires
        t.inner is CJump,
        succ.len() == 2,
        forall|u: int| 0 <= u < 2 ==> (succ[u] as int) < labels.len() && label_key(labels[succ[u] as int]) == label_key(
            #[trigger] jump_targets(t)[u],
        ),
        label_key(jump_targets(t)[0]) == label_key(jump_targets(t)[1]) ==> succ[0] == succ[1],
        forall|k: int| 0 <= k < splits.len() && (#[trigger] splits[k]).0 as int == i ==> succ.contains(splits[k].1),
        forall|k1: int, k2: int|
            0 <= k1 < splits.len() && 0 <= k2 < splits.len() && k1 != k2 ==> !((#[trigger] splits[k1]).0 == (#[trigger] splits[k2]).0
                && splits[k1].1 == splits[k2].1),
        forall|k: int, u: int|
            0 <= k < splits.len() && 0 <= u < 2 ==> label_key((#[trigger] splits[k]).2) != label_key(labels[#[trigger] succ[u] as int]),
    ensures
        retarget_all(t, splits, labels, i).inner is CJump,
        retarget_all(t, splits, labels, i).inner->CJump_0.cond == t.inner->CJump_0.cond,
        forall|u: int|
            0 <= u < 2 ==> #[trigger] jump_targets(retarget_all(t, splits, labels, i))[u] == if has_split(splits, i, succ[u] as int) {
                split_label(splits, i, succ[u] as int)
            } else {
                jump_targets(t)[u]
            },
    decreases splits.len(),
{
    if splits.len() > 0 {
        let prev = splits.drop_last();
        assert forall|k1: int, k2: int|
            0 <= k1 < prev.len() && 0 <= k2 < prev.len() && k1 != k2 implies !((#[trigger] prev[k1]).0 == (#[trigger] prev[k2]).0
                && prev[k1].1 == prev[k2].1) by {
            assert(prev[k1] == splits[k1] && prev[k2] == splits[k2]);
        }
        assert forall|k: int| 0 <= k < prev.len() && (#[trigger] prev[k]).0 as int == i implies succ.contains(prev[k].1) by {
            assert(prev[k] == splits[k]);
        }
        assert forall|k: int, u: int| 0 <= k < prev.len() && 0 <= u < 2 implies label_key((#[trigger] prev[k]).2) != label_key(
            labels[#[trigger] succ[u] as int],
        ) by {
            assert(prev[k] == splits[k]);
        }
        lemma_retarget_all_targets(t, prev, labels, i, succ);
        let t0 = retarget_all(t, prev, labels, i);
        let e = splits.last();
        let last = splits.len() - 1;
        assert(splits[last] == e);
        assert forall|u: int| 0 <= u < 2 implies #[trigger] jump_targets(retarget_all(t, splits, labels, i))[u] == if has_split(
            splits,
            i,
            succ[u] as int,
        ) {
            split_label(splits, i, succ[u] as int)
        } else {
            jump_targets(t)[u]
        } by {
            let su = succ[u] as int;
            if has_split(prev, i, su) {
                let kp = choose|k: int| 0 <= k < prev.len() && (#[trigger] prev[k]).0 as int == i && prev[k].1 as int == su;
                assert(splits[kp] == prev[kp]);
                assert(has_split(splits, i, su));
                let ks = choose|k: int| 0 <= k < splits.len() && (#[trigger] splits[k]).0 as int == i && splits[k].1 as int == su;
                assert(ks == kp);
                assert(split_label(splits, i, su) == split_label(prev, i, su));
            } else {
                if e.0 as int == i && e.1 as int == su {
                    assert(has_split(splits, i, su));
                    let ks = choose|k: int| 0 <= k < splits.len() && (#[trigger] splits[k]).0 as int == i && splits[k].1 as int == su;
                    if ks != last {
                        assert(splits[ks] == prev[ks]);
                    }
                    assert(ks == last);
                } else {
                    assert(!has_split(splits, i, su)) by {
                        if has_split(splits, i, su) {
                            let ks = choose|k: int| 0 <= k < splits.len() && (#[trigger] splits[k]).0 as int == i && splits[k].1 as int == su;
                            if ks != last {
                                assert(splits[ks] == prev[ks]);
                            }
                        }
                    }
                    if e.0 as int == i {
                        assert(succ.contains(e.1));
                        let w = choose|w: int| 0 <= w < succ.len() && succ[w] == e.1;
                        assert(jump_targets(t0)[u] == jump_targets(t)[u]);
                        assert(label_key(jump_targets(t)[u]) != label_key(labels[e.1 as int])) by {
                            if label_key(jump_targets(t)[u]) == label_key(labels[e.1 as int]) {
                                assert(label_key(jump_targets(t)[w]) == label_key(labels[e.1 as int]));
                                assert(succ[0] == succ[1]);
                            }
                        }
                    }
                }
            }
            if has_split(prev, i, su) && e.0 as int == i {
                assert(label_key(e.2) != label_key(labels[e.1 as int])) by {
                    assert(succ.contains(e.1));
                    let w = choose|w: int| 0 <= w < succ.len() && succ[w] == e.1;
                    assert(label_key(splits[last].2) != label_key(labels[succ[w] as int]));
                }
                let kp = choose|k: int| 0 <= k < prev.len() && (#[trigger] prev[k]).0 as int == i && prev[k].1 as int == su;
                assert(label_key(prev[kp].2) != label_key(labels[e.1 as int])) by {
                    assert(succ.contains(e.1));
                    let w = choose|w: int| 0 <= w < succ.len() && succ[w] == e.1;
                    assert(splits[kp] == prev[kp]);
                    assert(label_key(splits[kp].2) != label_key(labels[succ[w] as int]));
                }
            }
        }
    }
}

/// `stmts` is `pre`, then the statements of `body` with `mid` placed before
/// its last terminator (at its end when it has none), each part as copies,
/// except that the last statement of `body` may jump elsewhere.
pub open spec fn laid_out_from(body: Seq<Stmt>, stmts: Seq<Stmt>, pre: Seq<Stmt>, mid: Seq<Stmt>) -> bool {
    exists|pre2: Seq<Stmt>, kept: Seq<Stmt>, mid2: Seq<Stmt>, pos: int|
        #![trigger copies(pre2, pre), copies(mid2, mid), kept.subrange(0, pos)]
        {
            &&& copies(pre2, pre)
            &&& copies(mid2, mid)
            &&& kept.len() == body.len()
            &&& forall|k: int| 0 <= k < body.len() - 1 ==> same_stmt(#[trigger] kept[k], body[k])
            &&& body.len() > 0 ==> same_but_targets(body.last(), kept.last())
            &&& 0 <= pos <= kept.len()
            &&& stmts == pre2 + kept.subrange(0, pos) + mid2 + kept.subrange(pos, kept.len() as int)
            &&& mid.len() > 0 ==> last_terminator_at(kept, pos)
        }
}

/// The stores that go into block `i` of `old`: when its one successor has
/// PHIs, the stores of that edge; none otherwise.
pub open spec fn edge_mid(old: Seq<BasicBlock>, i: int, slots: Map<usize, Operand>) -> Seq<Stmt> {
    let succs = block_succs(old);
    if succs[i].len() == 1 && phis_of(old[succs[i][0] as int].stmts@).len() > 0 {
        phi_stores(phis_of(old[succs[i][0] as int].stmts@), label_key(old[i].label), slots)
    } else {
        Seq::empty()
    }
}

/// Block `b` holds the stores of edge `i -> s` of `old`, then jumps to `s`;
/// its label is numbered above every numbered label of `old`.
pub open spec fn edge_block(old: Seq<BasicBlock>, b: BasicBlock, i: int, s: int, slots: Map<usize, Operand>) -> bool {
    &&& b.stmts@.len() > 0
    &&& copies(b.stmts@.drop_last(), phi_stores(phis_of(old[s].stmts@), label_key(old[i].label), slots))
    &&& b.stmts@.last() == (Stmt { inner: StmtInner::Jump(JumpStmt { target: old[s].label }) })
    &&& b.label matches BlockLabel::BasicBlock(id) && label_ids_below(old.map_values(|x: BasicBlock| x.label), id as int)
}

/// No entry label of `old` reads like a numbered label.
pub open spec fn no_numbered_names(old: Seq<BasicBlock>) -> bool {
    forall|x: int, m: usize|
        0 <= x < old.len() && (#[trigger] old[x]).label is Function ==> label_key(old[x].label) != #[trigger] label_key(
            BlockLabel::BasicBlock(m),
        )
}

/// `new` is `old` with its PHIs replaced by the stack slots `slots` of the
/// PHIs' registers, allocated in the order `order`: each old block starts
/// with the slots' allocas (the entry block only) and a load of each PHI from
/// its slot, keeps its other statements, and holds the stores of the edge to
/// its successor when it has one successor; every other edge into a block
/// with PHIs gets a new block with its stores, and the branch goes there.
pub open spec fn phis_replaced(old: Seq<BasicBlock>, new: Seq<BasicBlock>, slots: Map<usize, Operand>, order: Seq<usize>) -> bool {
    let n = old.len();
    let succs = block_succs(old);
    let labels = old.map_values(|b: BasicBlock| b.label);
    &&& new.len() >= n
    &&& order.no_duplicates()
    &&& forall|k: int| 0 <= k < order.len() ==> slots.contains_key(#[trigger] order[k])
    &&& forall|v: usize| #[trigger] slots.contains_key(v) ==> order.contains(v)
    &&& forall|i: int, k: int|
        0 <= i < n && 0 <= k < phis_of(old[i].stmts@).len() ==> slots.contains_key(phi_vreg(#[trigger] phis_of(old[i].stmts@)[k]))
    &&& forall|i: int|
        0 <= i < n ==> laid_out_from(
            non_phi_stmts(old[i].stmts@),
            (#[trigger] new[i]).stmts@,
            entry_allocas(labels, i, slot_allocas(order, slots)) + phi_loads(phis_of(old[i].stmts@), slots),
            edge_mid(old, i, slots),
        )
    &&& split_edges_ok(old, new, slots)
    &&& kept_targets_ok(old, new)
    &&& new_blocks_are_edges(old, new, slots)
}

/// Every edge into a block with PHIs from a block with other than one
/// successor has a block of its own among the new ones, and (unless an entry
/// label reads like a numbered one) the branch's target goes there.
pub open spec fn split_edges_ok(old: Seq<BasicBlock>, new: Seq<BasicBlock>, slots: Map<usize, Operand>) -> bool {
    let n = old.len();
    let succs = block_succs(old);
    forall|i: int, u: int|
        0 <= i < n && 0 <= u < succs[i].len() && succs[i].len() != 1 && phis_of(old[#[trigger] succs[i][u] as int].stmts@).len() > 0
            ==> exists|j: int|
            n <= j < new.len() && #[trigger] edge_block(old, new[j], i, succs[i][u] as int, slots) && (no_numbered_names(old)
                ==> jump_targets(new[i].stmts@.last())[u] == new[j].label)
}

/// A branch's target to a block without PHIs stays (unless an entry label
/// reads like a numbered one).
pub open spec fn kept_targets_ok(old: Seq<BasicBlock>, new: Seq<BasicBlock>) -> bool {
    let n = old.len();
    let succs = block_succs(old);
    forall|i: int, u: int|
        0 <= i < n && 0 <= u < succs[i].len() && succs[i].len() == 2 && phis_of(old[#[trigger] succs[i][u] as int].stmts@).len()
            == 0 && no_numbered_names(old) ==> jump_targets(new[i].stmts@.last())[u] == jump_targets(old[i].stmts@.last())[u]
}

/// Every new block is the block of such an edge.
pub open spec fn new_blocks_are_edges(old: Seq<BasicBlock>, new: Seq<BasicBlock>, slots: Map<usize, Operand>) -> bool {
    forall|j: int| #![trigger new[j]] old.len() <= j < new.len() ==> is_edge_block(old, new[j], slots)
}

/// Block `b` is the block of an edge into a block with PHIs from a block
/// with other than one successor.
pub open spec fn is_edge_block(old: Seq<BasicBlock>, b: BasicBlock, slots: Map<usize, Operand>) -> bool {
    let succs = block_succs(old);
    exists|i: int, u: int|
        0 <= i < old.len() && 0 <= u < succs[i].len() && succs[i].len() != 1 && phis_of(old[succs[i][u] as int].stmts@).len() > 0
            && #[trigger] edge_block(old, b, i, succs[i][u] as int, slots)
}

proof fn lemma_copies_trans(a: Seq<Stmt>, b: Seq<Stmt>, c: Seq<Stmt>)
    requires
        copies(a, b),
        copies(b, c),
    ensures
        copies(a, c),
{
    assert forall|k: int| 0 <= k < a.len() implies same_stmt(#[trigger] a[k], c[k]) by {
        lemma_same_stmt_props(a[k], b[k], c[k]);
    }
}

/// Copies of incoming lists give copies of the value on an edge.
proof fn lemma_incoming_for_copy(a: Seq<(BlockLabel, Operand)>, b: Seq<(BlockLabel, Operand)>, key: Seq<char>)
    requires
        same_incomings(a, b),
    ensures
        same_operand(incoming_for(a, key), incoming_for(b, key)),
    decreases a.len(),
{
    if a.len() > 0 {
        assert(a[0].0 == b[0].0);
        if label_key(a[0].0) != key {
            assert forall|i: int| 0 <= i < a.drop_first().len() implies (#[trigger] a.drop_first()[i]).0 == b.drop_first()[i].0
                && same_operand(a.drop_first()[i].1, b.drop_first()[i].1) by {
                assert(a.drop_first()[i] == a[i + 1]);
                assert(b.drop_first()[i] == b[i + 1]);
            }
            lemma_incoming_for_copy(a.drop_first(), b.drop_first(), key);
        }
    } else {
        lemma_same_operand_props(incoming_for(a, key), incoming_for(a, key), incoming_for(a, key));
    }
}

/// Copies of PHIs give copies of their stores and the same loads.
proof fn lemma_phi_moves_copy(a: Seq<PhiStmt>, b: Seq<PhiStmt>, key: Seq<char>, slots: Map<usize, Operand>)
    requires
        a.len() == b.len(),
        forall|k: int| 0 <= k < a.len() ==> same_phi(#[trigger] a[k], b[k]),
        forall|k: int| 0 <= k < b.len() ==> (#[trigger] b[k]).dst is Local,
    ensures
        copies(phi_stores(a, key, slots), phi_stores(b, key, slots)),
        phi_loads(a, slots) == phi_loads(b, slots),
        forall|k: int| 0 <= k < a.len() ==> phi_vreg(#[trigger] a[k]) == phi_vreg(b[k]),
{
    assert forall|k: int| 0 <= k < a.len() implies a[k].dst == (#[trigger] b[k]).dst by {
        assert(same_phi(a[k], b[k]));
    }
    assert forall|k: int| 0 <= k < a.len() implies same_stmt(#[trigger] phi_stores(a, key, slots)[k], phi_stores(b, key, slots)[k]) by {
        assert(same_phi(a[k], b[k]));
        lemma_incoming_for_copy(a[k].incomings@, b[k].incomings@, key);
        lemma_same_operand_props(slots[phi_vreg(a[k])], slots[phi_vreg(a[k])], slots[phi_vreg(a[k])]);
    }
    assert(phi_loads(a, slots) =~= phi_loads(b, slots));
}

/// A block's last statement stays last among its statements that are not PHIs.
proof fn lemma_non_phi_last(s: Seq<Stmt>)
    requires
        s.len() > 0,
        !(s.last().inner is Phi),
    ensures
        non_phi_stmts(s).len() > 0,
        non_phi_stmts(s).last() == s.last(),
{
}

/// `laid_out` over a body that was copied and retargeted is `laid_out_from`
/// over the first body.
proof fn lemma_laid_out_from(
    body: Seq<Stmt>,
    p0: Seq<Stmt>,
    p1: Seq<Stmt>,
    stmts: Seq<Stmt>,
    pre: Seq<Stmt>,
    pre_old: Seq<Stmt>,
    mid: Seq<Stmt>,
    mid_old: Seq<Stmt>,
)
    requires
        laid_out(p1, stmts, pre, mid),
        copies(pre, pre_old),
        copies(mid, mid_old),
        copies(p0, body),
        p1.len() == p0.len(),
        forall|k: int| 0 <= k < p0.len() - 1 ==> #[trigger] p1[k] == p0[k],
        p0.len() > 0 ==> same_but_targets(p0.last(), p1.last()),
    ensures
        laid_out_from(body, stmts, pre_old, mid_old),
{
    let (pre2, kept, mid2, pos) = choose|pre2: Seq<Stmt>, kept: Seq<Stmt>, mid2: Seq<Stmt>, pos: int|
        #![trigger copies(pre2, pre), copies(mid2, mid), kept.subrange(0, pos)]
        {
            &&& copies(pre2, pre)
            &&& copies(mid2, mid)
            &&& copies(kept, p1)
            &&& 0 <= pos <= kept.len()
            &&& stmts == pre2 + kept.subrange(0, pos) + mid2 + kept.subrange(pos, kept.len() as int)
            &&& mid.len() > 0 ==> last_terminator_at(kept, pos)
        };
    lemma_copies_trans(pre2, pre, pre_old);
    lemma_copies_trans(mid2, mid, mid_old);
    assert forall|k: int| 0 <= k < body.len() - 1 implies same_stmt(#[trigger] kept[k], body[k]) by {
        assert(same_stmt(kept[k], p1[k]));
        assert(p1[k] == p0[k]);
        lemma_same_stmt_props(kept[k], p0[k], body[k]);
    }
    if body.len() > 0 {
        let l = body.len() - 1;
        assert(same_stmt(kept[l], p1[l]));
        lemma_copy_same_but_targets(p1[l], kept[l]);
        assert(same_stmt(p0[l], body[l]));
        lemma_copy_same_but_targets(body[l], p0[l]);
        lemma_same_but_targets_trans(body[l], p0[l], p1[l]);
        lemma_same_but_targets_trans(body[l], p1[l], kept[l]);
    }
    assert(copies(pre2, pre_old) && copies(mid2, mid_old) && kept.subrange(0, pos) == kept.subrange(0, pos));
}

/// The labels of the blocks, in order.
pub open spec fn block_labels(blocks: Seq<BasicBlock>) -> Seq<BlockLabel> {
    blocks.map_values(|b: BasicBlock| b.label)
}

/// A numbered label reads differently from every label of `old` when it is
/// numbered above them and no entry label reads like a numbered one.
proof fn lemma_fresh_label_key(old: Seq<BasicBlock>, x: int, id: usize, bound: int)
    requires
        0 <= x < old.len(),
        label_ids_below(old.map_values(|b: BasicBlock| b.label), bound),
        bound <= id,
        no_numbered_names(old),
    ensures
        label_key(BlockLabel::BasicBlock(id)) != label_key(old[x].label),
{
    let labels = old.map_values(|b: BasicBlock| b.label);
    assert(labels[x] == old[x].label);
    match old[x].label {
        BlockLabel::BasicBlock(m) => {
            assert(m < bound);
            if label_key(BlockLabel::BasicBlock(id)) == label_key(old[x].label) {
                let a = seq!['b', 'b'] + decimal(id as nat);
                let b = seq!['b', 'b'] + decimal(m as nat);
                assert(a.subrange(2, a.len() as int) =~= decimal(id as nat));
                assert(b.subrange(2, b.len() as int) =~= decimal(m as nat));
                lemma_decimal_injective(id as nat, m as nat);
            }
        },
        BlockLabel::Function(_) => {
            assert(label_key(old[x].label) != label_key(BlockLabel::BasicBlock(id)));
        },
    }
}

/// The targets of a branch that ends block `i` of `old`, after the splits:
/// a target whose edge was split goes to the split's label, any other stays.
proof fn lemma_branch_targets(
    old: Seq<BasicBlock>,
    i: int,
    t: Stmt,
    splits: Seq<(usize, usize, BlockLabel, Vec<Stmt>)>,
    first_id: int,
)
    requires
        jumps_resolved(old),
        old.len() <= usize::MAX,
        0 <= i < old.len(),
        old[i].stmts@.len() > 0,
        old[i].stmts@.last().inner is CJump,
        same_stmt(t, old[i].stmts@.last()),
        forall|k: int| 0 <= k < splits.len() && (#[trigger] splits[k]).0 as int == i ==> block_succs(old)[i].contains(splits[k].1),
        forall|k1: int, k2: int|
            0 <= k1 < splits.len() && 0 <= k2 < splits.len() && k1 != k2 ==> !((#[trigger] splits[k1]).0 == (#[trigger] splits[k2]).0
                && splits[k1].1 == splits[k2].1),
        forall|k: int| 0 <= k < splits.len() ==> ((#[trigger] splits[k]).2 matches BlockLabel::BasicBlock(id) && first_id <= id),
        label_ids_below(old.map_values(|b: BasicBlock| b.label), first_id),
        no_numbered_names(old),
    ensures
        block_succs(old)[i].len() == 2,
        forall|u: int|
            0 <= u < 2 ==> (block_succs(old)[i][u] as int) < old.len() && #[trigger] jump_targets(
                retarget_all(t, splits, block_labels(old), i),
            )[u] == if has_split(splits, i, block_succs(old)[i][u] as int) {
                split_label(splits, i, block_succs(old)[i][u] as int)
            } else {
                jump_targets(old[i].stmts@.last())[u]
            },
{
    let labels = block_labels(old);
    let nl = node_labels(old);
    let map = label_map_of(nl);
    let succ = block_succs(old)[i];
    let last = old[i].stmts@.last();
    assert(old[i].targets_known(map));
    assert(jump_targets(t) == jump_targets(last));
    assert forall|u: int| 0 <= u < 2 implies map.contains_key(label_key(#[trigger] jump_targets(last)[u])) && succ[u] == map[label_key(
        jump_targets(last)[u],
    )] by {
    }
    assert forall|u: int| 0 <= u < 2 implies (succ[u] as int) < labels.len() && label_key(labels[succ[u] as int]) == label_key(
        #[trigger] jump_targets(t)[u],
    ) by {
        lemma_label_map_key(nl, label_key(jump_targets(last)[u]));
        assert(nl[succ[u] as int] == Some(label_key(labels[succ[u] as int])));
    }
    assert forall|k: int, u: int|
        0 <= k < splits.len() && 0 <= u < 2 implies label_key((#[trigger] splits[k]).2) != label_key(labels[#[trigger] succ[u] as int]) by {
        let id = splits[k].2->BasicBlock_0;
        assert(succ[u] < labels.len());
        lemma_fresh_label_key(old, succ[u] as int, id, first_id);
    }
    lemma_retarget_all_targets(t, splits, labels, i, succ);
}

proof fn lemma_copies_refl(a: Seq<Stmt>)
    ensures
        copies(a, a),
{
    assert forall|k: int| 0 <= k < a.len() implies same_stmt(#[trigger] a[k], a[k]) by {
        lemma_same_stmt_refl(a[k]);
    }
}

/// The PHIs of the parsed blocks are copies of the blocks' PHIs.
pub open spec fn phis_copied(ph: Seq<Seq<PhiStmt>>, old: Seq<BasicBlock>) -> bool {
    &&& ph.len() == old.len()
    &&& forall|i: int| 0 <= i < ph.len() ==> (#[trigger] ph[i]).len() == phis_of(old[i].stmts@).len()
    &&& forall|i: int, k: int| 0 <= i < ph.len() && 0 <= k < ph[i].len() ==> same_phi(#[trigger] ph[i][k], phis_of(old[i].stmts@)[k])
    &&& forall|i: int, k: int| 0 <= i < ph.len() && 0 <= k < ph[i].len() ==> (#[trigger] ph[i][k]).dst is Local
}

/// Stores computed from the parsed PHIs are copies of those from the blocks' PHIs.
proof fn lemma_edge_stores_old(
    ph: Seq<Seq<PhiStmt>>,
    old: Seq<BasicBlock>,
    slots: Map<usize, Operand>,
    p: int,
    s: int,
    st: Seq<Stmt>,
)
    requires
        phis_copied(ph, old),
        0 <= p < old.len(),
        0 <= s < old.len(),
        copies(st, edge_stores(ph, block_labels(old), slots, p, s)),
    ensures
        copies(st, phi_stores(phis_of(old[s].stmts@), label_key(old[p].label), slots)),
{
    let b = phis_of(old[s].stmts@);
    assert forall|k: int| 0 <= k < b.len() implies (#[trigger] b[k]).dst is Local by {
        assert(same_phi(ph[s][k], b[k]));
        assert(ph[s][k].dst is Local);
    }
    assert forall|k: int| 0 <= k < ph[s].len() implies same_phi(#[trigger] ph[s][k], b[k]) by {}
    lemma_phi_moves_copy(ph[s], b, label_key(old[p].label), slots);
    assert(block_labels(old)[p] == old[p].label);
    lemma_copies_trans(st, phi_stores(ph[s], label_key(old[p].label), slots), phi_stores(b, label_key(old[p].label), slots));
}

/// A split's block is the block of its edge.
proof fn lemma_split_edge_block(
    old: Seq<BasicBlock>,
    b: BasicBlock,
    e: (usize, usize, BlockLabel, Vec<Stmt>),
    ph: Seq<Seq<PhiStmt>>,
    slots: Map<usize, Operand>,
    first_id: int,
)
    requires
        phis_copied(ph, old),
        split_block(b, e, block_labels(old)),
        (e.0 as int) < old.len(),
        (e.1 as int) < old.len(),
        copies(e.3@, edge_stores(ph, block_labels(old), slots, e.0 as int, e.1 as int)),
        e.2 matches BlockLabel::BasicBlock(id) && first_id <= id,
        label_ids_below(block_labels(old), first_id),
    ensures
        edge_block(old, b, e.0 as int, e.1 as int, slots),
{
    lemma_edge_stores_old(ph, old, slots, e.0 as int, e.1 as int, e.3@);
    lemma_copies_trans(b.stmts@.drop_last(), e.3@, phi_stores(phis_of(old[e.1 as int].stmts@), label_key(old[e.0 as int].label), slots));
    assert(block_labels(old)[e.1 as int] == old[e.1 as int].label);
    let id = e.2->BasicBlock_0;
    assert forall|x: int| 0 <= x < block_labels(old).len() implies match #[trigger] block_labels(old)[x] {
        BlockLabel::BasicBlock(m) => m < id,
        _ => true,
    } by {
        assert(match block_labels(old)[x] {
            BlockLabel::BasicBlock(m) => m < first_id,
            _ => true,
        });
    }
    assert(block_labels(old) == old.map_values(|x: BasicBlock| x.label));
}

/// A list of allocas, loads and stores holds no PHI.
proof fn lemma_data_only_no_phi(s: Seq<Stmt>)
    requires
        data_only(s),
    ensures
        no_phi(s),
{
    assert forall|k: int| 0 <= k < s.len() implies !((#[trigger] s[k]).inner is Phi) by {
        assert(data_only(s));
        assert(s[k].inner is Alloca || s[k].inner is Load || s[k].inner is Store);
    }
}

/// Concatenated lists of allocas, loads and stores are such a list.
proof fn lemma_data_only_concat(a: Seq<Stmt>, b: Seq<Stmt>)
    requires
        data_only(a),
        data_only(b),
    ensures
        data_only(a + b),
{
    assert forall|t: int| 0 <= t < (a + b).len() implies (#[trigger] (a + b)[t]).inner is Alloca || (a + b)[t].inner is Load
        || (a + b)[t].inner is Store by {
        if t < a.len() {
            assert((a + b)[t] == a[t]);
        } else {
            assert((a + b)[t] == b[t - a.len()]);
        }
    }
}

proof fn lemma_same_operands_props(a: Seq<Operand>, b: Seq<Operand>, c: Seq<Operand>)
    ensures
        crate::ir::stmt::same_operands(a, b) ==> crate::ir::stmt::same_operands(b, a),
        crate::ir::stmt::same_operands(a, b) && crate::ir::stmt::same_operands(b, c) ==> crate::ir::stmt::same_operands(a, c),
{
    if crate::ir::stmt::same_operands(a, b) {
        assert forall|i: int| 0 <= i < b.len() implies crate::ir::value::same_operand(#[trigger] b[i], a[i]) by {
            lemma_same_operand_props(a[i], b[i], a[i]);
        }
        if crate::ir::stmt::same_operands(b, c) {
            assert forall|i: int| 0 <= i < a.len() implies crate::ir::value::same_operand(#[trigger] a[i], c[i]) by {
                lemma_same_operand_props(a[i], b[i], c[i]);
            }
        }
    }
}

proof fn lemma_same_incomings_props(a: Seq<(BlockLabel, Operand)>, b: Seq<(BlockLabel, Operand)>, c: Seq<(BlockLabel, Operand)>)
    ensures
        crate::ir::stmt::same_incomings(a, b) ==> crate::ir::stmt::same_incomings(b, a),
        crate::ir::stmt::same_incomings(a, b) && crate::ir::stmt::same_incomings(b, c) ==> crate::ir::stmt::same_incomings(a, c),
{
    if crate::ir::stmt::same_incomings(a, b) {
        assert forall|i: int| 0 <= i < b.len() implies (#[trigger] b[i]).0 == a[i].0 && crate::ir::value::same_operand(b[i].1, a[i].1) by {
            lemma_same_operand_props(a[i].1, b[i].1, a[i].1);
        }
        if crate::ir::stmt::same_incomings(b, c) {
            assert forall|i: int| 0 <= i < a.len() implies (#[trigger] a[i]).0 == c[i].0 && crate::ir::value::same_operand(a[i].1, c[i].1) by {
                lemma_same_operand_props(a[i].1, b[i].1, c[i].1);
            }
        }
    }
}

proof fn lemma_same_stmt_refl(a: Stmt)
    ensures
        same_stmt(a, a),
{
    if let StmtInner::Call(x) = a.inner {
        assert forall|i: int| 0 <= i < x.args@.len() implies crate::ir::value::same_operand(#[trigger] x.args@[i], x.args@[i]) by {
            lemma_same_operand_props(x.args@[i], x.args@[i], x.args@[i]);
        }
    }
    if let StmtInner::Phi(x) = a.inner {
        assert forall|i: int| 0 <= i < x.incomings@.len() implies (#[trigger] x.incomings@[i]).0 == x.incomings@[i].0
            && crate::ir::value::same_operand(x.incomings@[i].1, x.incomings@[i].1) by {
            lemma_same_operand_props(x.incomings@[i].1, x.incomings@[i].1, x.incomings@[i].1);
        }
    }
}

/// A copy of a statement is the statement up to jump targets.
proof fn lemma_copy_same_but_targets(a: Stmt, b: Stmt)
    requires
        same_stmt(b, a),
    ensures
        same_but_targets(a, b),
{
    if let (StmtInner::CJump(x), StmtInner::CJump(y)) = (a.inner, b.inner) {
        lemma_same_operand_props(y.cond, x.cond, y.cond);
    }
}

/// Agreement up to jump targets composes.
proof fn lemma_same_but_targets_trans(a: Stmt, b: Stmt, c: Stmt)
    requires
        same_but_targets(a, b),
        same_but_targets(b, c),
    ensures
        same_but_targets(a, c),
{
    match (a.inner, b.inner, c.inner) {
        (StmtInner::CJump(x), StmtInner::CJump(y), StmtInner::CJump(z)) => {
            lemma_same_operand_props(x.cond, y.cond, z.cond);
        },
        _ => {
            lemma_same_stmt_props(c, b, a);
        },
    }
}

/// Copies of statements are symmetric and compose.
proof fn lemma_same_stmt_props(a: Stmt, b: Stmt, c: Stmt)
    ensures
        same_stmt(a, b) ==> same_stmt(b, a),
        same_stmt(a, b) && same_stmt(b, c) ==> same_stmt(a, c),
{
    match (a.inner, b.inner, c.inner) {
        (StmtInner::Call(x), StmtInner::Call(y), StmtInner::Call(z)) => {
            lemma_same_operands_props(x.args@, y.args@, z.args@);
            match (x.result, y.result, z.result) {
                (Some(p), Some(q), Some(r)) => lemma_same_operand_props(p, q, r),
                _ => {},
            }
        },
        (StmtInner::Phi(x), StmtInner::Phi(y), StmtInner::Phi(z)) => {
            lemma_same_incomings_props(x.incomings@, y.incomings@, z.incomings@);
            lemma_same_operand_props(x.dst, y.dst, z.dst);
        },
        _ => {},
    }
}


pub open spec fn blocks_have_phi(blocks: Seq<BasicBlock>) -> bool {
    exists|i: int, k: int|
        0 <= i < blocks.len() && 0 <= k < blocks[i].stmts@.len() && (#[trigger] blocks[i].stmts@[k]).inner is Phi
}

/// Every PHI writes a local variable.
pub open spec fn phi_dsts_local(blocks: Seq<BasicBlock>) -> bool {
    forall|i: int, k: int|
        0 <= i < blocks.len() && 0 <= k < blocks[i].stmts@.len() ==> match (#[trigger] blocks[i].stmts@[k]).inner {
            StmtInner::Phi(p) => p.dst is Local,
            _ => true,
        }
}

/// The total number of statements.
pub open spec fn stmt_count(blocks: Seq<BasicBlock>) -> nat
    decreases blocks.len(),
{
    if blocks.len() == 0 {
        0
    } else {
        stmt_count(blocks.drop_last()) + blocks.last().stmts@.len()
    }
}

/// Every numbered label is below `bound`.
pub open spec fn label_ids_below(labels: Seq<BlockLabel>, bound: int) -> bool {
    forall|i: int| 0 <= i < labels.len() ==> match #[trigger] labels[i] {
        BlockLabel::BasicBlock(n) => n < bound,
        _ => true,
    }
}

/// What PHI elimination needs of a function's blocks: jumps name labels of
/// the function, PHIs write locals, and the counters of new registers and new
/// blocks cannot overflow.
pub open spec fn phi_elimination_ready(blocks: Seq<BasicBlock>, next_vreg: usize) -> bool {
    &&& jumps_resolved(blocks)
    &&& phi_dsts_local(blocks)
    &&& next_vreg + stmt_count(blocks) <= usize::MAX
    &&& 2 * blocks.len() * blocks.len() + 3 <= usize::MAX
    &&& label_ids_below(
        blocks.map_values(|b: BasicBlock| b.label),
        usize::MAX - 2 * blocks.len() * blocks.len() - 2,
    )
}

/// Whether any block holds a PHI.
pub fn has_phis(blocks: &[BasicBlock]) -> (r: bool)
    ensures
        r == blocks_have_phi(blocks@),
{
    let mut i: usize = 0;
    while i < blocks.len()
        invariant
            i <= blocks@.len(),
            forall|j: int, k: int|
                0 <= j < i && 0 <= k < blocks@[j].stmts@.len() ==> !((#[trigger] blocks@[j].stmts@[k]).inner is Phi),
        decreases blocks@.len() - i,
    {
        let stmts = &blocks[i].stmts;
        let mut k: usize = 0;
        while k < stmts.len()
            invariant
                i < blocks@.len(),
                stmts@ == blocks@[i as int].stmts@,
                k <= stmts@.len(),
                forall|t: int| 0 <= t < k ==> !((#[trigger] stmts@[t]).inner is Phi),
            decreases stmts@.len() - k,
        {
            if stmts[k].is_phi() {
                assert(blocks@[i as int].stmts@[k as int].inner is Phi);
                return true;
            }
            k += 1;
        }
        i += 1;
    }
    false
}

/// One more than the largest numbered label, or 1 if there is none.
pub open spec fn spec_next_block_id(labels: Seq<BlockLabel>, r: usize) -> bool {
    &&& r >= 1
    &&& label_ids_below(labels, r as int)
    &&& (r == 1 || exists|i: int| 0 <= i < labels.len() && labels[i] == BlockLabel::BasicBlock((r - 1) as usize))
}

/// One more than the largest numbered label, or 1 if there is none.
fn next_basic_block_id(labels: &[BlockLabel]) -> (r: usize)
    requires
        label_ids_below(labels@, usize::MAX as int),
    ensures
        spec_next_block_id(labels@, r),
{
    let mut best: usize = 1;
    let mut i: usize = 0;
    while i < labels.len()
        invariant
            i <= labels@.len(),
            label_ids_below(labels@, usize::MAX as int),
            best >= 1,
            label_ids_below(labels@.take(i as int), best as int),
            best == 1 || exists|j: int| 0 <= j < labels@.len() && labels@[j] == BlockLabel::BasicBlock((best - 1) as usize),
        decreases labels@.len() - i,
    {
        let ghost pre = best;
        if let BlockLabel::BasicBlock(n) = &labels[i] {
            assert(labels@[i as int] matches BlockLabel::BasicBlock(m) && m < usize::MAX);
            if *n + 1 > best {
                best = *n + 1;
            }
        }
        assert forall|j: int| 0 <= j < i + 1 implies match #[trigger] labels@.take(i + 1)[j] {
            BlockLabel::BasicBlock(n) => n < best,
            _ => true,
        } by {
            if j < i {
                assert(labels@.take(i + 1)[j] == labels@.take(i as int)[j]);
            }
        }
        i += 1;
    }
    assert(labels@.take(labels@.len() as int) =~= labels@);
    best
}

/// A block split into its PHIs and the rest.
struct ParsedBlock {
    label: BlockLabel,
    phis: Vec<PhiStmt>,
    body: Vec<Stmt>,
}

fn clone_phi(p: &PhiStmt) -> (r: PhiStmt)
    ensures
        same_phi(r, *p),
{
    PhiStmt { dst: p.dst.clone(), incomings: clone_incomings(&p.incomings) }
}

impl ParsedBlock {
    fn from_block(block: &BasicBlock) -> (r: Self)
        requires
            forall|k: int| 0 <= k < block.stmts@.len() ==> match (#[trigger] block.stmts@[k]).inner {
                StmtInner::Phi(p) => p.dst is Local,
                _ => true,
            },
        ensures
            r.label == block.label,
            no_phi(r.body@),
            forall|k: int| 0 <= k < r.phis@.len() ==> (#[trigger] r.phis@[k]).dst is Local,
            r.phis@.len() <= block.stmts@.len(),
            r.body@.len() == non_phi_stmts(block.stmts@).len(),
            forall|k: int| 0 <= k < r.body@.len() ==> same_stmt(#[trigger] r.body@[k], non_phi_stmts(block.stmts@)[k]),
            r.phis@.len() == phis_of(block.stmts@).len(),
            forall|k: int| 0 <= k < r.phis@.len() ==> same_phi(#[trigger] r.phis@[k], phis_of(block.stmts@)[k]),
    {
        let mut phis: Vec<PhiStmt> = Vec::new();
        let mut body: Vec<Stmt> = Vec::new();
        let mut k: usize = 0;
        while k < block.stmts.len()
            invariant
                k <= block.stmts@.len(),
                forall|k: int| 0 <= k < block.stmts@.len() ==> match (#[trigger] block.stmts@[k]).inner {
                    StmtInner::Phi(p) => p.dst is Local,
                    _ => true,
                },
                no_phi(body@),
                forall|t: int| 0 <= t < phis@.len() ==> (#[trigger] phis@[t]).dst is Local,
                phis@.len() <= k,
                body@.len() == non_phi_stmts(block.stmts@.take(k as int)).len(),
                forall|t: int| 0 <= t < body@.len() ==> same_stmt(#[trigger] body@[t], non_phi_stmts(block.stmts@.take(k as int))[t]),
                phis@.len() == phis_of(block.stmts@.take(k as int)).len(),
                forall|t: int| 0 <= t < phis@.len() ==> same_phi(#[trigger] phis@[t], phis_of(block.stmts@.take(k as int))[t]),
            decreases block.stmts@.len() - k,
        {
            let stmt = &block.stmts[k];
            proof {
                assert(block.stmts@.take(k as int + 1).drop_last() =~= block.stmts@.take(k as int));
                assert(block.stmts@.take(k as int + 1).last() == block.stmts@[k as int]);
            }
            match &stmt.inner {
                StmtInner::Phi(p) => {
                    assert(block.stmts@[k as int].inner is Phi);
                    phis.push(clone_phi(p));
                },
                _ => {
                    let c = stmt.clone();
                    body.push(c);
                },
            }
            k += 1;
        }
        assert(block.stmts@.take(k as int) =~= block.stmts@);
        ParsedBlock { label: block.label.clone(), phis, body }
    }
}

/// Moves `body` into `out` with `inserts` placed before its last terminator
/// (at the end if it has none).
fn insert_before_terminator(out: &mut Vec<Stmt>, body: Vec<Stmt>, inserts: Vec<Stmt>)
    ensures
        final(out)@.len() == old(out)@.len() + body@.len() + inserts@.len(),
        (exists|pos: int|
            0 <= pos < body@.len() && (#[trigger] body@[pos]).spec_is_terminator() && (forall|t: int|
                pos < t < body@.len() ==> !(#[trigger] body@[t]).spec_is_terminator()) && final(out)@
                == old(out)@ + body@.subrange(0, pos) + inserts@ + body@.subrange(pos, body@.len() as int))
            || ((forall|t: int| 0 <= t < body@.len() ==> !(#[trigger] body@[t]).spec_is_terminator())
            && final(out)@ == old(out)@ + body@ + inserts@),
{
    let mut body = body;
    let mut inserts = inserts;
    let ghost b = body@;
    let ghost ins = inserts@;
    let mut j = body.len();
    while j > 0
        invariant
            j <= body@.len(),
            body@ == b,
            forall|t: int| j <= t < b.len() ==> !(#[trigger] b[t]).spec_is_terminator(),
        ensures
            j <= body@.len(),
            body@ == b,
            forall|t: int| j <= t < b.len() ==> !(#[trigger] b[t]).spec_is_terminator(),
            j > 0 ==> b[j - 1].spec_is_terminator(),
        decreases j,
    {
        if body[j - 1].is_terminator() {
            break;
        }
        j -= 1;
    }
    if j > 0 {
        let pos = j - 1;
        let mut tail = body.split_off(pos);
        out.append(&mut body);
        out.append(&mut inserts);
        out.append(&mut tail);
        assert(b[pos as int].spec_is_terminator());
        assert(final(out)@ =~= old(out)@ + b.subrange(0, pos as int) + ins + b.subrange(pos as int, b.len() as int));
    } else {
        out.append(&mut body);
        out.append(&mut inserts);
    }
}

/// Stack slots for PHI destinations, one per destination register.
struct SlotAllocator {
    slots: HashMap<usize, Operand>,
    allocas: Vec<Stmt>,
    order: Ghost<Seq<usize>>,
}

/// The register that a PHI writes.
pub open spec fn phi_vreg(p: PhiStmt) -> usize {
    p.dst.spec_vreg().unwrap()
}

/// The loads at the top of a block with PHIs `phis`: each PHI's destination
/// from the slot of its register.
pub open spec fn phi_loads(phis: Seq<PhiStmt>, slots: Map<usize, Operand>) -> Seq<Stmt> {
    Seq::new(
        phis.len(),
        |k: int| Stmt { inner: StmtInner::Load(LoadStmt { dst: phis[k].dst, ptr: slots[phi_vreg(phis[k])] }) },
    )
}

/// The allocas of the slots, in the order `order` of their registers.
pub open spec fn slot_allocas(order: Seq<usize>, slots: Map<usize, Operand>) -> Seq<Stmt> {
    Seq::new(order.len(), |k: int| Stmt { inner: StmtInner::Alloca(AllocaStmt { dst: slots[order[k]] }) })
}

/// The slots are distinct registers numbered in `[lo, hi)`.
pub open spec fn slots_fresh(slots: Map<usize, Operand>, lo: int, hi: int) -> bool {
    &&& forall|v: usize| #[trigger] slots.contains_key(v) ==> slots[v] is Local && lo <= slots[v]->Local_0.index < hi
    &&& forall|v: usize, w: usize|
        #[trigger] slots.contains_key(v) && #[trigger] slots.contains_key(w) && v != w ==> slots[v] != slots[w]
}

/// The value that a PHI with incoming list `incs` takes on the edge from the
/// block whose label has text `key`: the first such incoming value, or 0.
pub open spec fn incoming_for(incs: Seq<(BlockLabel, Operand)>, key: Seq<char>) -> Operand
    decreases incs.len(),
{
    if incs.len() == 0 {
        Operand::Integer(Integer { value: 0 })
    } else if label_key(incs[0].0) == key {
        incs[0].1
    } else {
        incoming_for(incs.drop_first(), key)
    }
}

/// The stores on an edge into a block with PHIs `phis`, from the block whose
/// label has text `key`: each PHI's value on that edge, into its slot.
pub open spec fn phi_stores(phis: Seq<PhiStmt>, key: Seq<char>, slots: Map<usize, Operand>) -> Seq<Stmt> {
    Seq::new(
        phis.len(),
        |k: int|
            Stmt {
                inner: StmtInner::Store(StoreStmt { src: incoming_for(phis[k].incomings@, key), ptr: slots[phi_vreg(phis[k])] }),
            },
    )
}

/// `a` is a copy of `b`, statement by statement.
pub open spec fn copies(a: Seq<Stmt>, b: Seq<Stmt>) -> bool {
    a.len() == b.len() && forall|k: int| 0 <= k < a.len() ==> same_stmt(#[trigger] a[k], b[k])
}

/// Incoming values from other blocks before position `t` do not count.
proof fn lemma_incoming_for_skip(incs: Seq<(BlockLabel, Operand)>, key: Seq<char>, t: int)
    requires
        0 <= t <= incs.len(),
        forall|j: int| 0 <= j < t ==> label_key((#[trigger] incs[j]).0) != key,
    ensures
        incoming_for(incs, key) == incoming_for(incs.skip(t), key),
    decreases t,
{
    if t > 0 {
        assert(label_key(incs[0].0) != key);
        assert forall|j: int| 0 <= j < t - 1 implies label_key((#[trigger] incs.drop_first()[j]).0) != key by {
            assert(incs.drop_first()[j] == incs[j + 1]);
        }
        lemma_incoming_for_skip(incs.drop_first(), key, t - 1);
        assert(incs.drop_first().skip(t - 1) =~= incs.skip(t));
    } else {
        assert(incs.skip(0) =~= incs);
    }
}

impl SlotAllocator {
    spec fn wf(&self) -> bool {
        &&& forall|k: int| 0 <= k < self.allocas@.len() ==> (#[trigger] self.allocas@[k]).inner is Alloca
        &&& forall|v: usize| #[trigger] self.slots@.contains_key(v) ==> self.slots@[v] is Local
        &&& self.order@.no_duplicates()
        &&& self.allocas@ == slot_allocas(self.order@, self.slots@)
        &&& forall|k: int| 0 <= k < self.order@.len() ==> self.slots@.contains_key(#[trigger] self.order@[k])
        &&& forall|v: usize| #[trigger] self.slots@.contains_key(v) ==> self.order@.contains(v)
    }

    fn new() -> (r: Self)
        ensures
            r.wf(),
            r.slots@ == Map::<usize, Operand>::empty(),
            r.allocas@.len() == 0,
    {
        let r = SlotAllocator { slots: HashMap::new(), allocas: Vec::new(), order: Ghost(Seq::empty()) };
        assert(r.allocas@ =~= slot_allocas(r.order@, r.slots@));
        r
    }

    /// The slot of `phi_dst`'s register, allocating it (and its `alloca`) on
    /// first use with the next free register.
    fn get_or_alloc(&mut self, phi_dst: &Operand, next_vreg: &mut usize) -> (r: Operand)
        requires
            old(self).wf(),
            phi_dst is Local,
            *old(next_vreg) < usize::MAX,
        ensures
            final(self).wf(),
            r is Local,
            final(self).slots@.contains_key(phi_dst.spec_vreg().unwrap()),
            r == final(self).slots@[phi_dst.spec_vreg().unwrap()],
            final(self).order@.len() == old(self).order@.len() + (*final(next_vreg) - *old(next_vreg)),
            forall|v: usize| #[trigger] old(self).slots@.contains_key(v) ==> final(self).slots@.contains_key(v)
                && final(self).slots@[v] == old(self).slots@[v],
            forall|lo: int|
                slots_fresh(old(self).slots@, lo, *old(next_vreg) as int) && lo <= *old(next_vreg) ==> slots_fresh(
                    final(self).slots@,
                    lo,
                    *final(next_vreg) as int,
                ),
            old(self).slots@.contains_key(phi_dst.spec_vreg().unwrap()) ==> *final(next_vreg) == *old(
                next_vreg,
            ) && final(self).slots@ == old(self).slots@,
            !old(self).slots@.contains_key(phi_dst.spec_vreg().unwrap()) ==> *final(next_vreg) == *old(
                next_vreg,
            ) + 1 && r == Operand::Local(
                crate::ir::value::LocalRef {
                    dtype: Dtype::Pointer { pointee: Box::new(phi_dst.spec_dtype()) },
                    index: *old(next_vreg),
                },
            ),
    {
        let vreg = phi_dst.vreg_index().unwrap();
        match self.slots.get(&vreg) {
            Some(slot) => {
                let r = slot.clone();
                assert(r is Local) by {
                    assert(self.slots@.contains_key(vreg));
                    assert(self.slots@[vreg] is Local);
                }
                r
            },
            None => {
                let ghost old_slots = self.slots@;
                let ghost old_order = self.order@;
                let idx = *next_vreg;
                *next_vreg = idx + 1;
                let ptr = LocalVariable::new(Dtype::ptr_to(phi_dst.dtype().clone()), idx, None);
                let slot = Operand::local(&ptr);
                self.allocas.push(Stmt::as_alloca(slot.clone()));
                self.slots.insert(vreg, slot.clone());
                self.order = Ghost(self.order@.push(vreg));
                proof {
                    assert(!self.order@.drop_last().contains(vreg));
                    assert forall|v: usize| #[trigger] self.slots@.contains_key(v) implies self.order@.contains(v) by {
                        if v == vreg {
                            assert(self.order@[self.order@.len() - 1] == vreg);
                        } else {
                            assert(old_slots.contains_key(v));
                            assert(old_order.contains(v));
                            let k = choose|k: int| 0 <= k < old_order.len() && old_order[k] == v;
                            assert(self.order@ == old_order.push(vreg));
                            assert(self.order@[k] == v);
                        }
                    }
                    assert(self.allocas@ =~= slot_allocas(self.order@, self.slots@)) by {
                        assert forall|k: int| 0 <= k < self.order@.len() - 1 implies self.slots@[self.order@[k]] == old_slots[self.order@[k]] by {
                            assert(self.order@[k] != vreg);
                        }
                    }
                    assert forall|lo: int|
                        slots_fresh(old_slots, lo, idx as int) && lo <= idx implies slots_fresh(self.slots@, lo, *next_vreg as int) by {
                        assert forall|v: usize, w: usize|
                            #[trigger] self.slots@.contains_key(v) && #[trigger] self.slots@.contains_key(w) && v != w implies self.slots@[v] != self.slots@[w] by {
                            if v != vreg && w != vreg {
                                assert(old_slots.contains_key(v) && old_slots.contains_key(w));
                            } else if v == vreg {
                                assert(old_slots.contains_key(w));
                                assert(old_slots[w]->Local_0.index < idx);
                            } else {
                                assert(old_slots.contains_key(v));
                                assert(old_slots[v]->Local_0.index < idx);
                            }
                        }
                    }
                }
                slot
            },
        }
    }

    /// The stores of the values that each PHI takes along the edge from the
    /// predecessor labelled `pred_label` (0 where the PHI names no such edge),
    /// for the PHIs that have a slot.
    fn build_stores(&self, phis: &[PhiStmt], pred_label: &BlockLabel) -> (r: Vec<Stmt>)
        requires
            self.wf(),
            forall|k: int| 0 <= k < phis@.len() ==> (#[trigger] phis@[k]).dst is Local,
            forall|k: int| 0 <= k < phis@.len() ==> self.slots@.contains_key(phi_vreg(#[trigger] phis@[k])),
        ensures
            forall|k: int| 0 <= k < r@.len() ==> (#[trigger] r@[k]).inner is Store,
            data_only(r@),
            r@.len() <= phis@.len(),
            copies(r@, phi_stores(phis@, label_key(*pred_label), self.slots@)),
    {
        let pred_key = pred_label.key();
        let ghost expected = phi_stores(phis@, label_key(*pred_label), self.slots@);
        let mut out: Vec<Stmt> = Vec::new();
        let mut k: usize = 0;
        while k < phis.len()
            invariant
                self.wf(),
                pred_key@ == label_key(*pred_label),
                expected == phi_stores(phis@, label_key(*pred_label), self.slots@),
                k <= phis@.len(),
                out@.len() == k,
                forall|t: int| 0 <= t < out@.len() ==> (#[trigger] out@[t]).inner is Store,
                forall|k: int| 0 <= k < phis@.len() ==> (#[trigger] phis@[k]).dst is Local,
                forall|k: int| 0 <= k < phis@.len() ==> self.slots@.contains_key(phi_vreg(#[trigger] phis@[k])),
                forall|t: int| 0 <= t < k ==> same_stmt(#[trigger] out@[t], expected[t]),
            decreases phis@.len() - k,
        {
            let phi = &phis[k];
            let vreg = phi.dst.vreg_index().unwrap();
            assert(self.slots@.contains_key(phi_vreg(phis@[k as int])));
            if let Some(slot) = self.slots.get(&vreg) {
                let mut value = Operand::integer(0);
                let mut t: usize = 0;
                let ghost incs = phi.incomings@;
                proof {
                    assert(incs.skip(0) =~= incs);
                }
                while t < phi.incomings.len()
                    invariant_except_break
                        t <= incs.len(),
                        value == Operand::Integer(Integer { value: 0 }),
                        incoming_for(incs, pred_key@) == incoming_for(incs.skip(t as int), pred_key@),
                    invariant
                        incs == phi.incomings@,
                    ensures
                        same_operand(value, incoming_for(incs, pred_key@)),
                    decreases phi.incomings@.len() - t,
                {
                    let (label, v) = &phi.incomings[t];
                    assert(incs.skip(t as int)[0] == incs[t as int]);
                    if label.key() == pred_key {
                        value = v.clone();
                        break;
                    }
                    assert(incs.skip(t as int).drop_first() =~= incs.skip(t + 1));
                    t += 1;
                }
                let p = slot.clone();
                out.push(Stmt::as_store(value, p));
                proof {
                    lemma_same_operand_props(value, incoming_for(phi.incomings@, pred_key@), value);
                    assert(same_stmt(out@[k as int], expected[k as int]));
                }
            }
            k += 1;
        }
        assert forall|t: int| 0 <= t < out@.len() implies (#[trigger] out@[t]).inner is Alloca || out@[t].inner is Load
            || out@[t].inner is Store by {
            assert(out@[t].inner is Store);
        }
        out
    }

    fn into_allocas(self) -> (r: Vec<Stmt>)
        requires
            self.wf(),
        ensures
            forall|k: int| 0 <= k < r@.len() ==> (#[trigger] r@[k]).inner is Alloca,
            data_only(r@),
            r@ == self.allocas@,
    {
        assert forall|t: int| 0 <= t < self.allocas@.len() implies (#[trigger] self.allocas@[t]).inner is Alloca
            || self.allocas@[t].inner is Load || self.allocas@[t].inner is Store by {
            assert(self.allocas@[t].inner is Alloca);
        }
        self.allocas
    }
}

/// The edges that get stores: stores in a predecessor with one successor go
/// before its terminator; other edges are split by a new block.
struct EdgeSplitter {
    splits: Vec<(usize, usize, BlockLabel, Vec<Stmt>)>,
    pending_inserts: Vec<(usize, Vec<Stmt>)>,
    next_block_id: usize,
}

/// The stores on the edge `p -> s`: the values of the PHIs `phis[s]` of `s`
/// on the edge from the block labelled `labels[p]`, into their slots.
pub open spec fn edge_stores(
    phis: Seq<Seq<PhiStmt>>,
    labels: Seq<BlockLabel>,
    slots: Map<usize, Operand>,
    p: int,
    s: int,
) -> Seq<Stmt> {
    phi_stores(phis[s], label_key(labels[p]), slots)
}

/// A copy of PHI stores holds only stores.
proof fn lemma_stores_data_only(st: Seq<Stmt>, phis: Seq<PhiStmt>, key: Seq<char>, slots: Map<usize, Operand>)
    requires
        copies(st, phi_stores(phis, key, slots)),
    ensures
        data_only(st),
        forall|k: int| 0 <= k < st.len() ==> (#[trigger] st[k]).inner is Store,
{
    assert forall|k: int| 0 <= k < st.len() implies (#[trigger] st[k]).inner is Store by {
        assert(same_stmt(st[k], phi_stores(phis, key, slots)[k]));
    }
    assert forall|k: int| 0 <= k < st.len() implies (#[trigger] st[k]).inner is Alloca || st[k].inner is Load
        || st[k].inner is Store by {
        assert(st[k].inner is Store);
    }
}

impl EdgeSplitter {
    /// The edges lie between blocks `0..n`, and every store list holds only
    /// data moves.
    spec fn wf(&self, n: int) -> bool {
        &&& forall|k: int|
            0 <= k < self.splits@.len() ==> (#[trigger] self.splits@[k]).0 < n && self.splits@[k].1 < n
                && data_only(self.splits@[k].3@)
        &&& forall|k: int|
            0 <= k < self.pending_inserts@.len() ==> (#[trigger] self.pending_inserts@[k]).0 < n
                && data_only(self.pending_inserts@[k].1@)
    }

    /// Each pending list belongs to a block with one successor, which has
    /// PHIs, and holds that edge's stores; no block has two lists.
    spec fn pending_ok(
        &self,
        phis: Seq<Seq<PhiStmt>>,
        labels: Seq<BlockLabel>,
        succs: Seq<Seq<usize>>,
        slots: Map<usize, Operand>,
    ) -> bool {
        &&& forall|k: int|
            0 <= k < self.pending_inserts@.len() ==> {
                let p = (#[trigger] self.pending_inserts@[k]).0 as int;
                &&& p < succs.len()
                &&& succs[p].len() == 1
                &&& phis[succs[p][0] as int].len() > 0
                &&& copies(self.pending_inserts@[k].1@, edge_stores(phis, labels, slots, p, succs[p][0] as int))
            }
        &&& forall|k1: int, k2: int|
            0 <= k1 < self.pending_inserts@.len() && 0 <= k2 < self.pending_inserts@.len() && k1 != k2
                ==> (#[trigger] self.pending_inserts@[k1]).0 != (#[trigger] self.pending_inserts@[k2]).0
    }

    /// Each split is an edge from a block with other than one successor to a
    /// block with PHIs, holds that edge's stores, and has a new numbered
    /// label; no edge is split twice, and no two splits share a label.
    spec fn splits_ok(
        &self,
        phis: Seq<Seq<PhiStmt>>,
        labels: Seq<BlockLabel>,
        succs: Seq<Seq<usize>>,
        slots: Map<usize, Operand>,
        first_id: int,
    ) -> bool {
        &&& forall|k: int|
            0 <= k < self.splits@.len() ==> {
                let e = #[trigger] self.splits@[k];
                &&& (e.0 as int) < succs.len()
                &&& succs[e.0 as int].len() != 1
                &&& succs[e.0 as int].contains(e.1)
                &&& phis[e.1 as int].len() > 0
                &&& copies(e.3@, edge_stores(phis, labels, slots, e.0 as int, e.1 as int))
                &&& e.2 matches BlockLabel::BasicBlock(id) && first_id <= id < self.next_block_id
            }
        &&& forall|k1: int, k2: int|
            0 <= k1 < self.splits@.len() && 0 <= k2 < self.splits@.len() && k1 != k2 ==> !((#[trigger] self.splits@[k1]).0
                == (#[trigger] self.splits@[k2]).0 && self.splits@[k1].1 == self.splits@[k2].1)
        &&& forall|k1: int, k2: int|
            0 <= k1 < self.splits@.len() && 0 <= k2 < self.splits@.len() && k1 != k2 ==> (#[trigger] self.splits@[k1]).2
                != (#[trigger] self.splits@[k2]).2
    }

    /// The edge `p -> s` has its stores: in `p`'s pending list when `p` has
    /// one successor, else in a split.
    spec fn covered(&self, succs: Seq<Seq<usize>>, p: int, s: int) -> bool {
        if succs[p].len() == 1 {
            exists|k: int| 0 <= k < self.pending_inserts@.len() && (#[trigger] self.pending_inserts@[k]).0 == p
        } else {
            exists|k: int|
                0 <= k < self.splits@.len() && (#[trigger] self.splits@[k]).0 == p && self.splits@[k].1 == s
        }
    }

    fn new(next_block_id: usize) -> (r: Self)
        ensures
            r.splits@.len() == 0,
            r.pending_inserts@.len() == 0,
            r.next_block_id == next_block_id,
    {
        EdgeSplitter { splits: Vec::new(), pending_inserts: Vec::new(), next_block_id }
    }

    /// Splits edge `pred -> succ` with a new block that holds `stores`.
    fn split(
        &mut self,
        pred: usize,
        succ: usize,
        stores: Vec<Stmt>,
        Ghost(n): Ghost<int>,
        Ghost(phis): Ghost<Seq<Seq<PhiStmt>>>,
        Ghost(labels): Ghost<Seq<BlockLabel>>,
        Ghost(succs): Ghost<Seq<Seq<usize>>>,
        Ghost(slots): Ghost<Map<usize, Operand>>,
        Ghost(first_id): Ghost<int>,
    )
        requires
            old(self).wf(n),
            old(self).splits_ok(phis, labels, succs, slots, first_id),
            pred < n,
            succ < n,
            n == succs.len(),
            succs[pred as int].len() != 1,
            succs[pred as int].contains(succ),
            phis[succ as int].len() > 0,
            copies(stores@, edge_stores(phis, labels, slots, pred as int, succ as int)),
            first_id <= old(self).next_block_id < usize::MAX,
        ensures
            final(self).wf(n),
            final(self).splits_ok(phis, labels, succs, slots, first_id),
            final(self).next_block_id == old(self).next_block_id + 1,
            final(self).pending_inserts == old(self).pending_inserts,
            final(self).splits@.len() <= old(self).splits@.len() + 1,
            final(self).covered(succs, pred as int, succ as int),
            forall|p: int, s: int| 0 <= p < n && old(self).covered(succs, p, s) ==> #[trigger] final(self).covered(succs, p, s),
    {
        proof {
            lemma_stores_data_only(stores@, phis[succ as int], label_key(labels[pred as int]), slots);
        }
        let ghost before = self.splits@;
        let label = BlockLabel::BasicBlock(self.next_block_id);
        self.next_block_id = self.next_block_id + 1;
        let mut k: usize = 0;
        while k < self.splits.len()
            invariant
                k <= self.splits@.len(),
                self.splits@ == before,
                forall|t: int| 0 <= t < k ==> !((#[trigger] self.splits@[t]).0 == pred && self.splits@[t].1 == succ),
            ensures
                k <= self.splits@.len(),
                self.splits@ == before,
                forall|t: int| 0 <= t < k ==> !((#[trigger] self.splits@[t]).0 == pred && self.splits@[t].1 == succ),
                k < self.splits@.len() ==> self.splits@[k as int].0 == pred && self.splits@[k as int].1 == succ,
            decreases self.splits@.len() - k,
        {
            if self.splits[k].0 == pred && self.splits[k].1 == succ {
                break;
            }
            k += 1;
        }
        if k < self.splits.len() {
            self.splits.set(k, (pred, succ, label, stores));
            proof {
                assert forall|p: int, s: int| 0 <= p < n && old(self).covered(succs, p, s) implies #[trigger] self.covered(succs, p, s) by {
                    if succs[p].len() != 1 {
                        let j = choose|j: int| 0 <= j < before.len() && (#[trigger] before[j]).0 == p && before[j].1 == s;
                        assert(self.splits@[j].0 == p && self.splits@[j].1 == s);
                    } else {
                        let j = choose|j: int| 0 <= j < self.pending_inserts@.len() && (#[trigger] self.pending_inserts@[j]).0 == p;
                    }
                }
                assert(self.splits@[k as int].0 == pred && self.splits@[k as int].1 == succ);
                assert forall|k1: int, k2: int|
                    0 <= k1 < self.splits@.len() && 0 <= k2 < self.splits@.len() && k1 != k2 implies (#[trigger] self.splits@[k1]).2
                        != (#[trigger] self.splits@[k2]).2 by {
                    if k1 == k as int {
                        assert(self.splits@[k2] == before[k2]);
                    } else if k2 == k as int {
                        assert(self.splits@[k1] == before[k1]);
                    } else {
                        assert(self.splits@[k1] == before[k1]);
                        assert(self.splits@[k2] == before[k2]);
                    }
                }
                assert forall|k1: int, k2: int|
                    0 <= k1 < self.splits@.len() && 0 <= k2 < self.splits@.len() && k1 != k2 implies !((#[trigger] self.splits@[k1]).0
                        == (#[trigger] self.splits@[k2]).0 && self.splits@[k1].1 == self.splits@[k2].1) by {
                    if k1 != k as int {
                        assert(self.splits@[k1] == before[k1]);
                    }
                    if k2 != k as int {
                        assert(self.splits@[k2] == before[k2]);
                    }
                }
            }
        } else {
            self.splits.push((pred, succ, label, stores));
            proof {
                assert forall|p: int, s: int| 0 <= p < n && old(self).covered(succs, p, s) implies #[trigger] self.covered(succs, p, s) by {
                    if succs[p].len() != 1 {
                        let j = choose|j: int| 0 <= j < before.len() && (#[trigger] before[j]).0 == p && before[j].1 == s;
                        assert(self.splits@[j] == before[j]);
                    } else {
                        let j = choose|j: int| 0 <= j < self.pending_inserts@.len() && (#[trigger] self.pending_inserts@[j]).0 == p;
                    }
                }
                let last = self.splits@.len() - 1;
                assert(self.splits@[last].0 == pred && self.splits@[last].1 == succ);
                assert forall|k1: int, k2: int|
                    0 <= k1 < self.splits@.len() && 0 <= k2 < self.splits@.len() && k1 != k2 implies (#[trigger] self.splits@[k1]).2
                        != (#[trigger] self.splits@[k2]).2 by {
                    if k1 == last {
                        assert(self.splits@[k2] == before[k2]);
                    } else if k2 == last {
                        assert(self.splits@[k1] == before[k1]);
                    } else {
                        assert(self.splits@[k1] == before[k1]);
                        assert(self.splits@[k2] == before[k2]);
                    }
                }
                assert forall|k1: int, k2: int|
                    0 <= k1 < self.splits@.len() && 0 <= k2 < self.splits@.len() && k1 != k2 implies !((#[trigger] self.splits@[k1]).0
                        == (#[trigger] self.splits@[k2]).0 && self.splits@[k1].1 == self.splits@[k2].1) by {
                    if k1 != last {
                        assert(self.splits@[k1] == before[k1]);
                    }
                    if k2 != last {
                        assert(self.splits@[k2] == before[k2]);
                    }
                }
            }
        }
    }
}

/// Block `b` is the block of split `e`: it has the split's label, copies of
/// its stores, and a jump to the split edge's target.
pub open spec fn split_block(b: BasicBlock, e: (usize, usize, BlockLabel, Vec<Stmt>), labels: Seq<BlockLabel>) -> bool {
    &&& b.label == e.2
    &&& b.stmts@.len() > 0
    &&& copies(b.stmts@.drop_last(), e.3@)
    &&& b.stmts@.last() == (Stmt { inner: StmtInner::Jump(JumpStmt { target: labels[e.1 as int] }) })
}

/// A copy of a list of statements.
fn clone_stmts(v: &Vec<Stmt>) -> (r: Vec<Stmt>)
    ensures
        r@.len() == v@.len(),
        forall|k: int| 0 <= k < v@.len() ==> same_stmt(#[trigger] r@[k], v@[k]),
        no_phi(v@) ==> no_phi(r@),
        data_only(v@) ==> data_only(r@),
{
    let mut r: Vec<Stmt> = Vec::new();
    let mut k: usize = 0;
    while k < v.len()
        invariant
            k <= v@.len(),
            r@.len() == k,
            forall|t: int| 0 <= t < k ==> same_stmt(#[trigger] r@[t], v@[t]),
        decreases v@.len() - k,
    {
        r.push(v[k].clone());
        k += 1;
    }
    assert(no_phi(v@) ==> no_phi(r@)) by {
        if no_phi(v@) {
            assert forall|t: int| 0 <= t < r@.len() implies !((#[trigger] r@[t]).inner is Phi) by {
                assert(same_stmt(r@[t], v@[t]));
                assert(!(v@[t].inner is Phi));
            }
        }
    }
    assert(data_only(v@) ==> data_only(r@)) by {
        if data_only(v@) {
            assert forall|t: int| 0 <= t < r@.len() implies (#[trigger] r@[t]).inner is Alloca || r@[t].inner is Load
                || r@[t].inner is Store by {
                assert(same_stmt(r@[t], v@[t]));
                assert(v@[t].inner is Alloca || v@[t].inner is Load || v@[t].inner is Store);
            }
        }
    }
    r
}

/// `t` with every jump target whose text is `key` replaced by `l`.
pub open spec fn retargeted(t: Stmt, key: Seq<char>, l: BlockLabel) -> Stmt {
    match t.inner {
        StmtInner::Jump(j) => if label_key(j.target) == key {
            Stmt { inner: StmtInner::Jump(JumpStmt { target: l }) }
        } else {
            t
        },
        StmtInner::CJump(j) => Stmt {
            inner: StmtInner::CJump(
                CJumpStmt {
                    cond: j.cond,
                    true_label: if label_key(j.true_label) == key {
                        l
                    } else {
                        j.true_label
                    },
                    false_label: if label_key(j.false_label) == key {
                        l
                    } else {
                        j.false_label
                    },
                },
            ),
        },
        _ => t,
    }
}

/// Statement `t` of block `i` after each split from `i` in `splits`, in
/// order, pointed it at the split's label.
pub open spec fn retarget_all(t: Stmt, splits: Seq<(usize, usize, BlockLabel, Vec<Stmt>)>, labels: Seq<BlockLabel>, i: int) -> Stmt
    decreases splits.len(),
{
    if splits.len() == 0 {
        t
    } else {
        let t0 = retarget_all(t, splits.drop_last(), labels, i);
        let e = splits.last();
        if e.0 as int == i {
            retargeted(t0, label_key(labels[e.1 as int]), e.2)
        } else {
            t0
        }
    }
}

/// `term` with every jump target whose text is `target_key` replaced by `new_label`.
fn retarget(term: Stmt, target_key: &String, new_label: &BlockLabel) -> (r: Stmt)
    ensures
        (r.inner is Phi) == (term.inner is Phi),
        same_but_targets(term, r),
        r == retargeted(term, target_key@, *new_label),
{
    proof {
        lemma_same_stmt_refl(term);
    }
    match term.inner {
        StmtInner::Jump(j) => {
            if j.target.key() == *target_key {
                Stmt { inner: StmtInner::Jump(JumpStmt { target: new_label.clone() }) }
            } else {
                Stmt { inner: StmtInner::Jump(j) }
            }
        },
        StmtInner::CJump(j) => {
            let true_label = if j.true_label.key() == *target_key {
                new_label.clone()
            } else {
                j.true_label
            };
            let false_label = if j.false_label.key() == *target_key {
                new_label.clone()
            } else {
                j.false_label
            };
            Stmt { inner: StmtInner::CJump(CJumpStmt { cond: j.cond, true_label, false_label }) }
        },
        other => Stmt { inner: other },
    }
}

impl EdgeSplitter {
    /// Queues `stores` before the terminator of `pred`.
    fn insert_at_pred(
        &mut self,
        pred: usize,
        stores: Vec<Stmt>,
        Ghost(n): Ghost<int>,
        Ghost(phis): Ghost<Seq<Seq<PhiStmt>>>,
        Ghost(labels): Ghost<Seq<BlockLabel>>,
        Ghost(succs): Ghost<Seq<Seq<usize>>>,
        Ghost(slots): Ghost<Map<usize, Operand>>,
    )
        requires
            old(self).wf(n),
            old(self).pending_ok(phis, labels, succs, slots),
            pred < n,
            n == succs.len(),
            succs[pred as int].len() == 1,
            phis[succs[pred as int][0] as int].len() > 0,
            copies(stores@, edge_stores(phis, labels, slots, pred as int, succs[pred as int][0] as int)),
            forall|k: int| 0 <= k < old(self).pending_inserts@.len() ==> (#[trigger] old(self).pending_inserts@[k]).0 != pred,
        ensures
            final(self).wf(n),
            final(self).pending_ok(phis, labels, succs, slots),
            final(self).next_block_id == old(self).next_block_id,
            final(self).splits == old(self).splits,
            final(self).pending_inserts@ == old(self).pending_inserts@.push((pred, stores)),
    {
        proof {
            lemma_stores_data_only(stores@, phis[succs[pred as int][0] as int], label_key(labels[pred as int]), slots);
        }
        let mut k: usize = 0;
        while k < self.pending_inserts.len()
            invariant
                k <= self.pending_inserts@.len(),
            ensures
                k < self.pending_inserts@.len() ==> self.pending_inserts@[k as int].0 == pred,
            decreases self.pending_inserts@.len() - k,
        {
            if self.pending_inserts[k].0 == pred {
                break;
            }
            k += 1;
        }
        if k < self.pending_inserts.len() {
            assert(false);
            let mut merged = clone_stmts(&self.pending_inserts[k].1);
            let mut more = stores;
            merged.append(&mut more);
            self.pending_inserts.set(k, (pred, merged));
        } else {
            let ghost before = self.pending_inserts@;
            self.pending_inserts.push((pred, stores));
            proof {
                assert forall|k1: int, k2: int|
                    0 <= k1 < self.pending_inserts@.len() && 0 <= k2 < self.pending_inserts@.len() && k1 != k2
                        implies (#[trigger] self.pending_inserts@[k1]).0 != (#[trigger] self.pending_inserts@[k2]).0 by {
                    if k1 < before.len() && k2 < before.len() {
                        assert(self.pending_inserts@[k1] == before[k1]);
                        assert(self.pending_inserts@[k2] == before[k2]);
                    } else if k1 < before.len() {
                        assert(self.pending_inserts@[k1] == before[k1]);
                    } else {
                        assert(self.pending_inserts@[k2] == before[k2]);
                    }
                }
                assert forall|j: int| 0 <= j < self.pending_inserts@.len() implies (#[trigger] self.pending_inserts@[j]).0 < n
                    && data_only(self.pending_inserts@[j].1@) by {
                    if j < before.len() {
                        assert(self.pending_inserts@[j] == before[j]);
                    }
                }
            }
        }
    }

    /// Points the terminator of each split predecessor at its new block.
    fn patch_terminators(&self, blocks: &mut Vec<ParsedBlock>, labels: &[BlockLabel])
        requires
            self.wf(old(blocks)@.len() as int),
            labels@.len() == old(blocks)@.len(),
            forall|i: int| 0 <= i < old(blocks)@.len() ==> no_phi((#[trigger] old(blocks)@[i]).body@),
        ensures
            final(blocks)@.len() == old(blocks)@.len(),
            forall|i: int| 0 <= i < final(blocks)@.len() ==> (#[trigger] final(blocks)@[i]).label == old(blocks)@[i].label,
            forall|i: int| 0 <= i < final(blocks)@.len() ==> (#[trigger] final(blocks)@[i]).phis == old(blocks)@[i].phis,
            forall|i: int| 0 <= i < final(blocks)@.len() ==> no_phi((#[trigger] final(blocks)@[i]).body@),
            forall|i: int| 0 <= i < final(blocks)@.len() ==> (#[trigger] final(blocks)@[i]).body@.len() == old(blocks)@[i].body@.len(),
            forall|i: int, k: int|
                0 <= i < final(blocks)@.len() && 0 <= k < old(blocks)@[i].body@.len() ==> same_but_targets(
                    old(blocks)@[i].body@[k],
                    #[trigger] final(blocks)@[i].body@[k],
                ),
            forall|i: int, k: int|
                0 <= i < final(blocks)@.len() && 0 <= k < old(blocks)@[i].body@.len() - 1 ==> #[trigger] final(blocks)@[i].body@[k]
                    == old(blocks)@[i].body@[k],
            forall|i: int|
                0 <= i < final(blocks)@.len() && old(blocks)@[i].body@.len() > 0 ==> (#[trigger] final(blocks)@[i]).body@.last()
                    == retarget_all(old(blocks)@[i].body@.last(), self.splits@, labels@, i),
    {
        let ghost orig = blocks@;
        let mut k: usize = 0;
        while k < self.splits.len()
            invariant
                self.wf(orig.len() as int),
                labels@.len() == orig.len(),
                k <= self.splits@.len(),
                blocks@.len() == orig.len(),
                forall|i: int| 0 <= i < blocks@.len() ==> (#[trigger] blocks@[i]).label == orig[i].label,
                forall|i: int| 0 <= i < blocks@.len() ==> (#[trigger] blocks@[i]).phis == orig[i].phis,
                forall|i: int| 0 <= i < blocks@.len() ==> no_phi((#[trigger] blocks@[i]).body@),
                forall|i: int| 0 <= i < blocks@.len() ==> (#[trigger] blocks@[i]).body@.len() == orig[i].body@.len(),
                forall|i: int, t: int|
                    0 <= i < blocks@.len() && 0 <= t < orig[i].body@.len() ==> same_but_targets(
                        orig[i].body@[t],
                        #[trigger] blocks@[i].body@[t],
                    ),
                forall|i: int, t: int|
                    0 <= i < blocks@.len() && 0 <= t < orig[i].body@.len() - 1 ==> #[trigger] blocks@[i].body@[t] == orig[i].body@[t],
                forall|i: int|
                    0 <= i < blocks@.len() && orig[i].body@.len() > 0 ==> (#[trigger] blocks@[i]).body@.last() == retarget_all(
                        orig[i].body@.last(),
                        self.splits@.take(k as int),
                        labels@,
                        i,
                    ),
            decreases self.splits@.len() - k,
        {
            let ghost before = blocks@;
            let pred = self.splits[k].0;
            let succ = self.splits[k].1;
            assert(self.splits@[k as int].0 < orig.len());
            let target_key = labels[succ].key();
            let pb = &mut blocks[pred];
            let ghost pre_body = pb.body@;
            match pb.body.pop() {
                Some(term) => {
                    let patched = retarget(term, &target_key, &self.splits[k].2);
                    pb.body.push(patched);
                    assert(pb.body@.len() == pre_body.len());
                    assert(same_but_targets(pre_body[pre_body.len() - 1], pb.body@[pre_body.len() - 1]));
                    assert forall|t: int| 0 <= t < pre_body.len() - 1 implies pb.body@[t] == pre_body[t] by {}
                    assert(no_phi(pb.body@)) by {
                        assert forall|t: int| 0 <= t < pb.body@.len() implies !((#[trigger] pb.body@[t]).inner is Phi) by {
                            if t < pb.body@.len() - 1 {
                                assert(pb.body@[t] == pre_body[t]);
                            }
                        }
                    }
                },
                None => {},
            }
            proof {
                let after = blocks@;
                assert(self.splits@.take(k + 1).drop_last() =~= self.splits@.take(k as int));
                assert(self.splits@.take(k + 1).last() == self.splits@[k as int]);
                assert forall|i: int, t: int|
                    0 <= i < after.len() && 0 <= t < orig[i].body@.len() implies same_but_targets(
                        orig[i].body@[t],
                        #[trigger] after[i].body@[t],
                    ) by {
                    if i == pred as int && t == orig[i].body@.len() - 1 {
                        lemma_same_but_targets_trans(orig[i].body@[t], before[i].body@[t], after[i].body@[t]);
                    } else if i == pred as int {
                        assert(after[i].body@[t] == before[i].body@[t]);
                    } else {
                        assert(after[i] == before[i]);
                    }
                }
                assert forall|i: int, t: int|
                    0 <= i < after.len() && 0 <= t < orig[i].body@.len() - 1 implies #[trigger] after[i].body@[t] == orig[i].body@[t] by {
                    if i == pred as int {
                        assert(after[i].body@[t] == before[i].body@[t]);
                    } else {
                        assert(after[i] == before[i]);
                    }
                }
                assert forall|i: int|
                    0 <= i < after.len() && orig[i].body@.len() > 0 implies (#[trigger] after[i]).body@.last() == retarget_all(
                        orig[i].body@.last(),
                        self.splits@.take(k + 1),
                        labels@,
                        i,
                    ) by {
                    if i != pred as int {
                        assert(after[i] == before[i]);
                    }
                }
            }
            k += 1;
        }
        assert(self.splits@.take(k as int) =~= self.splits@);
    }

    /// The new blocks: each holds its edge's stores and jumps to the edge's target.
    fn materialize_splits(self, labels: &[BlockLabel]) -> (r: Vec<BasicBlock>)
        requires
            self.wf(labels@.len() as int),
        ensures
            r@.len() == self.splits@.len(),
            forall|i: int| 0 <= i < r@.len() ==> no_phi((#[trigger] r@[i]).stmts@),
            forall|i: int|
                0 <= i < r@.len() ==> (#[trigger] r@[i]).stmts@.len() > 0 && r@[i].stmts@.last().inner is Jump
                    && data_only(r@[i].stmts@.drop_last()),
            forall|i: int| 0 <= i < r@.len() ==> split_block((#[trigger] r@[i]), self.splits@[i], labels@),
    {
        let mut out: Vec<BasicBlock> = Vec::new();
        let mut k: usize = 0;
        while k < self.splits.len()
            invariant
                self.wf(labels@.len() as int),
                k <= self.splits@.len(),
                out@.len() == k,
                forall|i: int| 0 <= i < out@.len() ==> no_phi((#[trigger] out@[i]).stmts@),
                forall|i: int|
                    0 <= i < out@.len() ==> (#[trigger] out@[i]).stmts@.len() > 0 && out@[i].stmts@.last().inner is Jump
                        && data_only(out@[i].stmts@.drop_last()),
                forall|i: int| 0 <= i < out@.len() ==> split_block((#[trigger] out@[i]), self.splits@[i], labels@),
            decreases self.splits@.len() - k,
        {
            let e = &self.splits[k];
            assert(e.1 < labels@.len());
            let mut stmts = clone_stmts(&e.3);
            let ghost pre = stmts@;
            stmts.push(Stmt::as_jump(labels[e.1].clone()));
            assert(stmts@.drop_last() =~= pre);
            proof {
                lemma_data_only_no_phi(pre);
            }
            assert(no_phi(stmts@)) by {
                assert forall|t: int| 0 <= t < stmts@.len() implies !((#[trigger] stmts@[t]).inner is Phi) by {
                    if t < pre.len() {
                        assert(stmts@[t] == pre[t]);
                    }
                }
            }
            let ghost before = out@;
            out.push(BasicBlock { label: e.2.clone(), stmts });
            proof {
                assert forall|i: int| 0 <= i < out@.len() implies split_block((#[trigger] out@[i]), self.splits@[i], labels@) by {
                    if i < before.len() {
                        assert(out@[i] == before[i]);
                    }
                }
            }
            k += 1;
        }
        out
    }
}

proof fn lemma_count_in_le(s: Seq<usize>, x: usize)
    ensures
        count_in(s, x) <= s.len(),
    decreases s.len(),
{
    if s.len() > 0 {
        lemma_count_in_le(s.drop_last(), x);
    }
}

proof fn lemma_count_in_concat(a: Seq<usize>, b: Seq<usize>, x: usize)
    ensures
        count_in(a + b, x) == count_in(a, x) + count_in(b, x),
    decreases b.len(),
{
    if b.len() == 0 {
        assert(a + b =~= a);
    } else {
        lemma_count_in_concat(a, b.drop_last(), x);
        assert((a + b).drop_last() =~= a + b.drop_last());
    }
}

proof fn lemma_count_in_repeat(v: usize, c: nat, x: usize)
    ensures
        count_in(repeat(v, c), x) == if v == x { c } else { 0 },
    decreases c,
{
    if c > 0 {
        lemma_count_in_repeat(v, (c - 1) as nat, x);
        assert(repeat(v, c).drop_last() =~= repeat(v, (c - 1) as nat));
    }
}

/// A node occurs in the predecessor list of `s` once per edge to `s`.
proof fn lemma_pred_list_count(succs: Seq<Seq<usize>>, s: usize, m: int, p: usize)
    requires
        0 <= m <= succs.len(),
        succs.len() <= usize::MAX,
    ensures
        count_in(pred_list(succs, s, m), p) == if (p as int) < m { count_in(succs[p as int], s) } else { 0 },
    decreases m,
{
    if m > 0 {
        lemma_pred_list_count(succs, s, m - 1, p);
        lemma_count_in_concat(pred_list(succs, s, m - 1), repeat((m - 1) as usize, count_in(succs[m - 1], s)), p);
        lemma_count_in_repeat((m - 1) as usize, count_in(succs[m - 1], s), p);
        assert(((m - 1) as usize == p) == (p as int == m - 1));
    }
}

/// Two positions that hold `x` count twice.
proof fn lemma_count_in_two(q: Seq<usize>, x: usize, i: int, j: int)
    requires
        0 <= i < j < q.len(),
        q[i] == x,
        q[j] == x,
    ensures
        count_in(q, x) >= 2,
    decreases q.len(),
{
    if j < q.len() - 1 {
        lemma_count_in_two(q.drop_last(), x, i, j);
    } else {
        lemma_count_in_pos_at(q.drop_last(), x, i);
    }
}

proof fn lemma_count_in_pos_at(q: Seq<usize>, x: usize, i: int)
    requires
        0 <= i < q.len(),
        q[i] == x,
    ensures
        count_in(q, x) >= 1,
    decreases q.len(),
{
    if i < q.len() - 1 {
        lemma_count_in_pos_at(q.drop_last(), x, i);
    }
}

proof fn lemma_pred_list_len(succs: Seq<Seq<usize>>, s: usize, m: int)
    requires
        0 <= m <= succs.len(),
        forall|i: int| 0 <= i < succs.len() ==> (#[trigger] succs[i]).len() <= 2,
    ensures
        pred_list(succs, s, m).len() <= 2 * m,
    decreases m,
{
    if m > 0 {
        lemma_pred_list_len(succs, s, m - 1);
        lemma_count_in_le(succs[m - 1], s);
        assert(succs[m - 1].len() <= 2);
    }
}

pub proof fn lemma_stmt_count_take(blocks: Seq<BasicBlock>, i: int)
    requires
        0 <= i < blocks.len(),
    ensures
        stmt_count(blocks.take(i + 1)) == stmt_count(blocks.take(i)) + blocks[i].stmts@.len(),
{
    assert(blocks.take(i + 1).drop_last() =~= blocks.take(i));
}

pub proof fn lemma_stmt_count_take_le(blocks: Seq<BasicBlock>, i: int)
    requires
        0 <= i <= blocks.len(),
    ensures
        stmt_count(blocks.take(i)) <= stmt_count(blocks),
    decreases blocks.len() - i,
{
    if i < blocks.len() {
        lemma_stmt_count_take(blocks, i);
        lemma_stmt_count_take_le(blocks, i + 1);
    } else {
        assert(blocks.take(i) =~= blocks);
    }
}

proof fn lemma_no_phi_concat(a: Seq<Stmt>, b: Seq<Stmt>)
    requires
        no_phi(a),
        no_phi(b),
    ensures
        no_phi(a + b),
{
    assert forall|t: int| 0 <= t < (a + b).len() implies !((#[trigger] (a + b)[t]).inner is Phi) by {
        if t < a.len() {
            assert((a + b)[t] == a[t]);
        } else {
            assert((a + b)[t] == b[t - a.len()]);
        }
    }
}

proof fn lemma_no_phi_subrange(a: Seq<Stmt>, i: int, j: int)
    requires
        no_phi(a),
        0 <= i <= j <= a.len(),
    ensures
        no_phi(a.subrange(i, j)),
{
    assert forall|t: int| 0 <= t < a.subrange(i, j).len() implies !((#[trigger] a.subrange(i, j)[t]).inner is Phi) by {
        assert(a.subrange(i, j)[t] == a[i + t]);
    }
}

/// The successors of a block: at most two.
proof fn lemma_block_succs_small(blocks: Seq<BasicBlock>)
    ensures
        forall|i: int| 0 <= i < blocks.len() ==> (#[trigger] block_succs(blocks)[i]).len() <= 2,
{
}

/// The PHIs of each parsed block.
spec fn parsed_phis(parsed: Seq<ParsedBlock>) -> Seq<Seq<PhiStmt>> {
    parsed.map_values(|b: ParsedBlock| b.phis@)
}

struct PhiEliminator<'a> {
    blocks: &'a [BasicBlock],
    next_vreg: usize,
}

/// What the steps of PHI elimination establish, over the blocks `old`, the
/// result `new`, the parsed blocks before (`p0`) and after (`pl`) the
/// branches were pointed at the splits, the edges, the slots and the loads.
#[verifier::opaque]
spec fn elim_facts(
    old: Seq<BasicBlock>,
    new: Seq<BasicBlock>,
    p0: Seq<ParsedBlock>,
    pl: Seq<ParsedBlock>,
    ed: EdgeSplitter,
    slots: Map<usize, Operand>,
    order: Seq<usize>,
    allocas: Seq<Stmt>,
    loads: Seq<Vec<Stmt>>,
    first_id: int,
) -> bool {
    &&& jumps_resolved(old)
    &&& old.len() <= usize::MAX
    &&& forall|i: int| 0 <= i < block_succs(old).len() ==> (#[trigger] block_succs(old)[i]).len() <= 2
    &&& block_succs(old).len() == old.len()
    &&& succs_in_range(block_succs(old))
    &&& p0.len() == old.len()
    &&& pl.len() == old.len()
    &&& forall|i: int| 0 <= i < p0.len() ==> (#[trigger] p0[i]).body@.len() == non_phi_stmts(old[i].stmts@).len()
    &&& forall|i: int, k: int|
        0 <= i < p0.len() && 0 <= k < p0[i].body@.len() ==> same_stmt(#[trigger] p0[i].body@[k], non_phi_stmts(old[i].stmts@)[k])
    &&& forall|i: int| 0 <= i < p0.len() ==> (#[trigger] p0[i]).phis@.len() == phis_of(old[i].stmts@).len()
    &&& forall|i: int, k: int|
        0 <= i < p0.len() && 0 <= k < p0[i].phis@.len() ==> same_phi(#[trigger] p0[i].phis@[k], phis_of(old[i].stmts@)[k])
    &&& forall|i: int, k: int| 0 <= i < p0.len() && 0 <= k < p0[i].phis@.len() ==> (#[trigger] p0[i].phis@[k]).dst is Local
    &&& order.no_duplicates()
    &&& allocas == slot_allocas(order, slots)
    &&& forall|k: int| 0 <= k < order.len() ==> slots.contains_key(#[trigger] order[k])
    &&& forall|v: usize| #[trigger] slots.contains_key(v) ==> order.contains(v)
    &&& forall|i: int, k: int|
        0 <= i < p0.len() && 0 <= k < p0[i].phis@.len() ==> slots.contains_key(phi_vreg(#[trigger] p0[i].phis@[k]))
    &&& loads.len() == old.len()
    &&& forall|i: int| 0 <= i < loads.len() ==> (#[trigger] loads[i])@ == phi_loads(p0[i].phis@, slots)
    &&& ed.pending_ok(parsed_phis(p0), block_labels(old), block_succs(old), slots)
    &&& ed.splits_ok(parsed_phis(p0), block_labels(old), block_succs(old), slots, first_id)
    &&& forall|p: int, s: int|
        0 <= p < old.len() && 0 <= s < old.len() && block_succs(old)[p].contains(s as usize) && p0[s].phis@.len() > 0
            ==> #[trigger] ed.covered(block_succs(old), p, s)
    &&& forall|i: int| 0 <= i < pl.len() ==> (#[trigger] pl[i]).phis == p0[i].phis
    &&& forall|i: int| 0 <= i < pl.len() ==> (#[trigger] pl[i]).body@.len() == p0[i].body@.len()
    &&& forall|i: int, k: int|
        0 <= i < pl.len() && 0 <= k < p0[i].body@.len() ==> same_but_targets(p0[i].body@[k], #[trigger] pl[i].body@[k])
    &&& forall|i: int, k: int| 0 <= i < pl.len() && 0 <= k < p0[i].body@.len() - 1 ==> #[trigger] pl[i].body@[k] == p0[i].body@[k]
    &&& forall|i: int|
        0 <= i < pl.len() && p0[i].body@.len() > 0 ==> (#[trigger] pl[i]).body@.last() == retarget_all(
            p0[i].body@.last(),
            ed.splits@,
            block_labels(old),
            i,
        )
    &&& new.len() == old.len() + ed.splits@.len()
    &&& forall|i: int|
        0 <= i < old.len() ==> laid_out(
            pl[i].body@,
            (#[trigger] new[i]).stmts@,
            entry_allocas(block_labels(old), i, allocas) + loads[i]@,
            pending_of(ed.pending_inserts@, i),
        )
    &&& forall|j: int| 0 <= j < ed.splits@.len() ==> split_block(#[trigger] new[old.len() + j], ed.splits@[j], block_labels(old))
    &&& label_ids_below(block_labels(old), first_id)
}

/// The stores placed in block `i` are those of the edge to its one
/// successor, when that has PHIs; none otherwise.
proof fn lemma_mid_of(
    old: Seq<BasicBlock>,
    new: Seq<BasicBlock>,
    p0: Seq<ParsedBlock>,
    pl: Seq<ParsedBlock>,
    ed: EdgeSplitter,
    slots: Map<usize, Operand>,
    order: Seq<usize>,
    allocas: Seq<Stmt>,
    loads: Seq<Vec<Stmt>>,
    first_id: int,
    i: int,
)
    requires
        elim_facts(old, new, p0, pl, ed, slots, order, allocas, loads, first_id),
        phis_copied(parsed_phis(p0), old),
        0 <= i < old.len(),
    ensures
        copies(pending_of(ed.pending_inserts@, i), edge_mid(old, i, slots)),
{
    reveal(elim_facts);
    let succs = block_succs(old);
    let ph = parsed_phis(p0);
    let pend = ed.pending_inserts@;
    if succs[i].len() == 1 && phis_of(old[succs[i][0] as int].stmts@).len() > 0 {
        let s = succs[i][0] as int;
        assert(succs[i].contains(succs[i][0]));
        assert(ph[s] == p0[s].phis@);
        assert(ed.covered(succs, i, s));
        let k = choose|k: int| 0 <= k < pend.len() && (#[trigger] pend[k]).0 == i;
        lemma_pending_of(pend, i, k);
        lemma_edge_stores_old(ph, old, slots, i, s, pend[k].1@);
    } else {
        assert forall|k: int| 0 <= k < pend.len() implies (#[trigger] pend[k]).0 != i by {
            if pend[k].0 == i {
                assert(ph[succs[i][0] as int].len() > 0);
            }
        }
        lemma_pending_of_none(pend, i);
        lemma_copies_refl(Seq::<Stmt>::empty());
    }
}

/// A block of `old` with two successors ends with a branch; its last
/// statement in `new` has the targets of that branch after the splits.
proof fn lemma_branch_last(
    old: Seq<BasicBlock>,
    new: Seq<BasicBlock>,
    p0: Seq<ParsedBlock>,
    pl: Seq<ParsedBlock>,
    ed: EdgeSplitter,
    slots: Map<usize, Operand>,
    order: Seq<usize>,
    allocas: Seq<Stmt>,
    loads: Seq<Vec<Stmt>>,
    first_id: int,
    i: int,
)
    requires
        elim_facts(old, new, p0, pl, ed, slots, order, allocas, loads, first_id),
        0 <= i < old.len(),
        block_succs(old)[i].len() == 2,
    ensures
        old[i].stmts@.len() > 0,
        old[i].stmts@.last().inner is CJump,
        p0[i].body@.len() > 0,
        same_stmt(p0[i].body@.last(), old[i].stmts@.last()),
        jump_targets(new[i].stmts@.last()) == jump_targets(retarget_all(p0[i].body@.last(), ed.splits@, block_labels(old), i)),
{
    reveal(elim_facts);
    let succs = block_succs(old);
    let pend = ed.pending_inserts@;
    let map = label_map_of(node_labels(old));
    assert(succs[i] == old[i].successor_view(i, old.len() as int, map));
    assert(old[i].stmts@.len() > 0);
    assert(old[i].stmts@.last().inner is CJump);
    lemma_non_phi_last(old[i].stmts@);
    let body = non_phi_stmts(old[i].stmts@);
    let l = body.len() - 1;
    assert(same_stmt(p0[i].body@[l], body[l]));
    assert(p0[i].body@.last() == p0[i].body@[l]);
    assert forall|k: int| 0 <= k < pend.len() implies (#[trigger] pend[k]).0 != i by {}
    lemma_pending_of_none(pend, i);
    let pre = entry_allocas(block_labels(old), i, allocas) + loads[i]@;
    let mid = pending_of(pend, i);
    let p1 = pl[i].body@;
    let stmts = new[i].stmts@;
    assert(laid_out(p1, stmts, pre, mid));
    let (pre2, kept, mid2, pos) = choose|pre2: Seq<Stmt>, kept: Seq<Stmt>, mid2: Seq<Stmt>, pos: int|
        #![trigger copies(pre2, pre), copies(mid2, mid), kept.subrange(0, pos)]
        {
            &&& copies(pre2, pre)
            &&& copies(mid2, mid)
            &&& copies(kept, p1)
            &&& 0 <= pos <= kept.len()
            &&& stmts == pre2 + kept.subrange(0, pos) + mid2 + kept.subrange(pos, kept.len() as int)
            &&& mid.len() > 0 ==> last_terminator_at(kept, pos)
        };
    assert(mid2.len() == 0);
    assert(stmts =~= pre2 + kept);
    assert(stmts.last() == kept.last());
    let kl = kept.len() - 1;
    assert(same_stmt(kept[kl], p1[kl]));
    assert(p1[kl] == pl[i].body@.last());
    assert(pl[i].body@.last() == retarget_all(p0[i].body@.last(), ed.splits@, block_labels(old), i));
    lemma_retarget_all_targets_shape(p0[i].body@.last(), ed.splits@, block_labels(old), i);
}

/// Retargeting keeps a branch a branch.
proof fn lemma_retarget_all_targets_shape(
    t: Stmt,
    splits: Seq<(usize, usize, BlockLabel, Vec<Stmt>)>,
    labels: Seq<BlockLabel>,
    i: int,
)
    requires
        t.inner is CJump,
    ensures
        retarget_all(t, splits, labels, i).inner is CJump,
    decreases splits.len(),
{
    if splits.len() > 0 {
        lemma_retarget_all_targets_shape(t, splits.drop_last(), labels, i);
    }
}

/// A branch target whose edge was split goes to the split's block.
proof fn lemma_split_target(
    old: Seq<BasicBlock>,
    new: Seq<BasicBlock>,
    p0: Seq<ParsedBlock>,
    pl: Seq<ParsedBlock>,
    ed: EdgeSplitter,
    slots: Map<usize, Operand>,
    order: Seq<usize>,
    allocas: Seq<Stmt>,
    loads: Seq<Vec<Stmt>>,
    first_id: int,
    i: int,
    u: int,
    k: int,
)
    requires
        elim_facts(old, new, p0, pl, ed, slots, order, allocas, loads, first_id),
        no_numbered_names(old),
        0 <= i < old.len(),
        0 <= u < block_succs(old)[i].len(),
        block_succs(old)[i].len() != 1,
        0 <= k < ed.splits@.len(),
        ed.splits@[k].0 as int == i,
        ed.splits@[k].1 == block_succs(old)[i][u],
    ensures
        jump_targets(new[i].stmts@.last())[u] == new[old.len() + k].label,
{
    reveal(elim_facts);
    let sp = ed.splits@;
    lemma_branch_last(old, new, p0, pl, ed, slots, order, allocas, loads, first_id, i);
    lemma_branch_targets(old, i, p0[i].body@.last(), sp, first_id);
    let s = block_succs(old)[i][u] as int;
    assert(has_split(sp, i, s));
    let c = choose|c: int| 0 <= c < sp.len() && (#[trigger] sp[c]).0 as int == i && sp[c].1 as int == s;
    assert(c == k);
    assert(split_block(new[old.len() + k], sp[k], block_labels(old)));
}

/// A branch target whose edge was not split stays.
proof fn lemma_kept_target(
    old: Seq<BasicBlock>,
    new: Seq<BasicBlock>,
    p0: Seq<ParsedBlock>,
    pl: Seq<ParsedBlock>,
    ed: EdgeSplitter,
    slots: Map<usize, Operand>,
    order: Seq<usize>,
    allocas: Seq<Stmt>,
    loads: Seq<Vec<Stmt>>,
    first_id: int,
    i: int,
    u: int,
)
    requires
        elim_facts(old, new, p0, pl, ed, slots, order, allocas, loads, first_id),
        no_numbered_names(old),
        0 <= i < old.len(),
        0 <= u < block_succs(old)[i].len(),
        block_succs(old)[i].len() == 2,
        phis_of(old[block_succs(old)[i][u] as int].stmts@).len() == 0,
    ensures
        jump_targets(new[i].stmts@.last())[u] == jump_targets(old[i].stmts@.last())[u],
{
    reveal(elim_facts);
    let sp = ed.splits@;
    let ph = parsed_phis(p0);
    lemma_branch_last(old, new, p0, pl, ed, slots, order, allocas, loads, first_id, i);
    lemma_branch_targets(old, i, p0[i].body@.last(), sp, first_id);
    let s = block_succs(old)[i][u] as int;
    assert(!has_split(sp, i, s)) by {
        if has_split(sp, i, s) {
            let c = choose|c: int| 0 <= c < sp.len() && (#[trigger] sp[c]).0 as int == i && sp[c].1 as int == s;
            assert(ph[s].len() > 0);
            assert(ph[s] == p0[s].phis@);
        }
    }
}

/// The parsed PHIs are copies of the blocks' PHIs.
proof fn lemma_facts_phis(
    old: Seq<BasicBlock>,
    new: Seq<BasicBlock>,
    p0: Seq<ParsedBlock>,
    pl: Seq<ParsedBlock>,
    ed: EdgeSplitter,
    slots: Map<usize, Operand>,
    order: Seq<usize>,
    allocas: Seq<Stmt>,
    loads: Seq<Vec<Stmt>>,
    first_id: int,
)
    requires
        elim_facts(old, new, p0, pl, ed, slots, order, allocas, loads, first_id),
    ensures
        phis_copied(parsed_phis(p0), old),
{
    reveal(elim_facts);
    let ph = parsed_phis(p0);
    assert forall|i: int| 0 <= i < ph.len() implies (#[trigger] ph[i]).len() == phis_of(old[i].stmts@).len() by {
        assert(ph[i] == p0[i].phis@);
    }
    assert forall|i: int, k: int| 0 <= i < ph.len() && 0 <= k < ph[i].len() implies same_phi(#[trigger] ph[i][k], phis_of(old[i].stmts@)[k]) by {
        assert(ph[i] == p0[i].phis@);
    }
    assert forall|i: int, k: int| 0 <= i < ph.len() && 0 <= k < ph[i].len() implies (#[trigger] ph[i][k]).dst is Local by {
        assert(ph[i] == p0[i].phis@);
    }
}

/// Block `i`'s loads are those of its PHIs, whose registers have slots.
proof fn lemma_block_loads(
    old: Seq<BasicBlock>,
    new: Seq<BasicBlock>,
    p0: Seq<ParsedBlock>,
    pl: Seq<ParsedBlock>,
    ed: EdgeSplitter,
    slots: Map<usize, Operand>,
    order: Seq<usize>,
    allocas: Seq<Stmt>,
    loads: Seq<Vec<Stmt>>,
    first_id: int,
    i: int,
)
    requires
        elim_facts(old, new, p0, pl, ed, slots, order, allocas, loads, first_id),
        0 <= i < old.len(),
    ensures
        phi_loads(p0[i].phis@, slots) == phi_loads(phis_of(old[i].stmts@), slots),
        forall|k: int| 0 <= k < phis_of(old[i].stmts@).len() ==> slots.contains_key(phi_vreg(#[trigger] phis_of(old[i].stmts@)[k])),
{
    reveal(elim_facts);
    let b = phis_of(old[i].stmts@);
    assert forall|k: int| 0 <= k < b.len() implies (#[trigger] b[k]).dst is Local by {
        assert(same_phi(p0[i].phis@[k], b[k]));
    }
    assert forall|k: int| 0 <= k < p0[i].phis@.len() implies same_phi(#[trigger] p0[i].phis@[k], b[k]) by {}
    lemma_phi_moves_copy(p0[i].phis@, b, label_key(old[i].label), slots);
    assert forall|k: int| 0 <= k < b.len() implies slots.contains_key(phi_vreg(#[trigger] b[k])) by {
        assert(phi_vreg(p0[i].phis@[k]) == phi_vreg(b[k]));
    }
}

/// Block `i` of `new` is block `i` of `old` laid out anew.
proof fn lemma_block_laid_out(
    old: Seq<BasicBlock>,
    new: Seq<BasicBlock>,
    p0: Seq<ParsedBlock>,
    pl: Seq<ParsedBlock>,
    ed: EdgeSplitter,
    slots: Map<usize, Operand>,
    order: Seq<usize>,
    allocas: Seq<Stmt>,
    loads: Seq<Vec<Stmt>>,
    first_id: int,
    i: int,
)
    requires
        elim_facts(old, new, p0, pl, ed, slots, order, allocas, loads, first_id),
        0 <= i < old.len(),
    ensures
        laid_out_from(
            non_phi_stmts(old[i].stmts@),
            new[i].stmts@,
            entry_allocas(block_labels(old), i, slot_allocas(order, slots)) + phi_loads(phis_of(old[i].stmts@), slots),
            edge_mid(old, i, slots),
        ),
{
    reveal(elim_facts);
    lemma_facts_phis(old, new, p0, pl, ed, slots, order, allocas, loads, first_id);
    lemma_block_loads(old, new, p0, pl, ed, slots, order, allocas, loads, first_id, i);
    let pre = entry_allocas(block_labels(old), i, allocas) + loads[i]@;
    assert(pre == entry_allocas(block_labels(old), i, slot_allocas(order, slots)) + phi_loads(phis_of(old[i].stmts@), slots));
    lemma_copies_refl(pre);
    let mid = pending_of(ed.pending_inserts@, i);
    lemma_mid_of(old, new, p0, pl, ed, slots, order, allocas, loads, first_id, i);
    assert forall|k: int| 0 <= k < p0[i].body@.len() - 1 implies #[trigger] pl[i].body@[k] == p0[i].body@[k] by {}
    assert(copies(p0[i].body@, non_phi_stmts(old[i].stmts@)));
    if p0[i].body@.len() > 0 {
        let l = p0[i].body@.len() - 1;
        assert(same_but_targets(p0[i].body@[l], pl[i].body@[l]));
    }
    lemma_laid_out_from(non_phi_stmts(old[i].stmts@), p0[i].body@, pl[i].body@, new[i].stmts@, pre, pre, mid, edge_mid(old, i, slots));
}

/// A split edge has its block, and the branch goes there.
proof fn lemma_split_exists(
    old: Seq<BasicBlock>,
    new: Seq<BasicBlock>,
    p0: Seq<ParsedBlock>,
    pl: Seq<ParsedBlock>,
    ed: EdgeSplitter,
    slots: Map<usize, Operand>,
    order: Seq<usize>,
    allocas: Seq<Stmt>,
    loads: Seq<Vec<Stmt>>,
    first_id: int,
    i: int,
    u: int,
)
    requires
        elim_facts(old, new, p0, pl, ed, slots, order, allocas, loads, first_id),
        0 <= i < old.len(),
        0 <= u < block_succs(old)[i].len(),
        block_succs(old)[i].len() != 1,
        phis_of(old[block_succs(old)[i][u] as int].stmts@).len() > 0,
    ensures
        exists|j: int|
            old.len() <= j < new.len() && #[trigger] edge_block(old, new[j], i, block_succs(old)[i][u] as int, slots) && (
            no_numbered_names(old) ==> jump_targets(new[i].stmts@.last())[u] == new[j].label),
{
    reveal(elim_facts);
    lemma_facts_phis(old, new, p0, pl, ed, slots, order, allocas, loads, first_id);
    let succs = block_succs(old);
    let sp = ed.splits@;
    let ph = parsed_phis(p0);
    let s = succs[i][u] as int;
    assert(succs[i].contains(succs[i][u]));
    assert(p0[s].phis@.len() > 0);
    assert(ed.covered(succs, i, s));
    let k = choose|k: int| 0 <= k < sp.len() && (#[trigger] sp[k]).0 == i && sp[k].1 == s;
    let j = old.len() + k;
    assert(split_block(new[old.len() + k], sp[k], block_labels(old)));
    lemma_split_edge_block(old, new[j], sp[k], ph, slots, first_id);
    if no_numbered_names(old) {
        lemma_split_target(old, new, p0, pl, ed, slots, order, allocas, loads, first_id, i, u, k);
    }
    assert(edge_block(old, new[j], i, s, slots));
}

/// Every new block is the block of a split edge.
proof fn lemma_new_block(
    old: Seq<BasicBlock>,
    new: Seq<BasicBlock>,
    p0: Seq<ParsedBlock>,
    pl: Seq<ParsedBlock>,
    ed: EdgeSplitter,
    slots: Map<usize, Operand>,
    order: Seq<usize>,
    allocas: Seq<Stmt>,
    loads: Seq<Vec<Stmt>>,
    first_id: int,
    j: int,
)
    requires
        elim_facts(old, new, p0, pl, ed, slots, order, allocas, loads, first_id),
        old.len() <= j < new.len(),
    ensures
        is_edge_block(old, new[j], slots),
{
    reveal(elim_facts);
    lemma_facts_phis(old, new, p0, pl, ed, slots, order, allocas, loads, first_id);
    let succs = block_succs(old);
    let sp = ed.splits@;
    let ph = parsed_phis(p0);
    let k = j - old.len();
    let e = sp[k];
    assert(split_block(new[old.len() + k], e, block_labels(old)));
    assert(succs[e.0 as int].contains(e.1));
    let u = choose|u: int| 0 <= u < succs[e.0 as int].len() && succs[e.0 as int][u] == e.1;
    assert(ph[e.1 as int] == p0[e.1 as int].phis@);
    lemma_split_edge_block(old, new[j], e, ph, slots, first_id);
    assert(edge_block(old, new[j], e.0 as int, succs[e.0 as int][u] as int, slots));
}

/// The new blocks follow the old ones, and the slots are listed once each.
proof fn lemma_facts_basic(
    old: Seq<BasicBlock>,
    new: Seq<BasicBlock>,
    p0: Seq<ParsedBlock>,
    pl: Seq<ParsedBlock>,
    ed: EdgeSplitter,
    slots: Map<usize, Operand>,
    order: Seq<usize>,
    allocas: Seq<Stmt>,
    loads: Seq<Vec<Stmt>>,
    first_id: int,
)
    requires
        elim_facts(old, new, p0, pl, ed, slots, order, allocas, loads, first_id),
    ensures
        new.len() >= old.len(),
        order.no_duplicates(),
        forall|k: int| 0 <= k < order.len() ==> slots.contains_key(#[trigger] order[k]),
        forall|v: usize| #[trigger] slots.contains_key(v) ==> order.contains(v),
{
    reveal(elim_facts);
}

proof fn lemma_all_split_edges(
    old: Seq<BasicBlock>,
    new: Seq<BasicBlock>,
    p0: Seq<ParsedBlock>,
    pl: Seq<ParsedBlock>,
    ed: EdgeSplitter,
    slots: Map<usize, Operand>,
    order: Seq<usize>,
    allocas: Seq<Stmt>,
    loads: Seq<Vec<Stmt>>,
    first_id: int,
)
    requires
        elim_facts(old, new, p0, pl, ed, slots, order, allocas, loads, first_id),
    ensures
        split_edges_ok(old, new, slots),
{
    let n = old.len();
    let succs = block_succs(old);
    assert forall|i: int, u: int|
        0 <= i < n && 0 <= u < succs[i].len() && succs[i].len() != 1 && phis_of(old[#[trigger] succs[i][u] as int].stmts@).len() > 0
            implies exists|j: int|
            n <= j < new.len() && #[trigger] edge_block(old, new[j], i, succs[i][u] as int, slots) && (no_numbered_names(old)
                ==> jump_targets(new[i].stmts@.last())[u] == new[j].label) by {
        lemma_split_exists(old, new, p0, pl, ed, slots, order, allocas, loads, first_id, i, u);
    }
}

proof fn lemma_all_kept_targets(
    old: Seq<BasicBlock>,
    new: Seq<BasicBlock>,
    p0: Seq<ParsedBlock>,
    pl: Seq<ParsedBlock>,
    ed: EdgeSplitter,
    slots: Map<usize, Operand>,
    order: Seq<usize>,
    allocas: Seq<Stmt>,
    loads: Seq<Vec<Stmt>>,
    first_id: int,
)
    requires
        elim_facts(old, new, p0, pl, ed, slots, order, allocas, loads, first_id),
    ensures
        kept_targets_ok(old, new),
{
    let n = old.len();
    let succs = block_succs(old);
    assert forall|i: int, u: int|
        0 <= i < n && 0 <= u < succs[i].len() && succs[i].len() == 2 && phis_of(old[#[trigger] succs[i][u] as int].stmts@).len()
            == 0 && no_numbered_names(old) implies jump_targets(new[i].stmts@.last())[u] == jump_targets(old[i].stmts@.last())[u] by {
        lemma_kept_target(old, new, p0, pl, ed, slots, order, allocas, loads, first_id, i, u);
    }
}

proof fn lemma_all_new_blocks(
    old: Seq<BasicBlock>,
    new: Seq<BasicBlock>,
    p0: Seq<ParsedBlock>,
    pl: Seq<ParsedBlock>,
    ed: EdgeSplitter,
    slots: Map<usize, Operand>,
    order: Seq<usize>,
    allocas: Seq<Stmt>,
    loads: Seq<Vec<Stmt>>,
    first_id: int,
)
    requires
        elim_facts(old, new, p0, pl, ed, slots, order, allocas, loads, first_id),
    ensures
        new_blocks_are_edges(old, new, slots),
{
    assert forall|j: int| #![trigger new[j]] old.len() <= j < new.len() implies is_edge_block(old, new[j], slots) by {
        lemma_new_block(old, new, p0, pl, ed, slots, order, allocas, loads, first_id, j);
    }
}

proof fn lemma_all_blocks(
    old: Seq<BasicBlock>,
    new: Seq<BasicBlock>,
    p0: Seq<ParsedBlock>,
    pl: Seq<ParsedBlock>,
    ed: EdgeSplitter,
    slots: Map<usize, Operand>,
    order: Seq<usize>,
    allocas: Seq<Stmt>,
    loads: Seq<Vec<Stmt>>,
    first_id: int,
)
    requires
        elim_facts(old, new, p0, pl, ed, slots, order, allocas, loads, first_id),
    ensures
        forall|i: int|
            0 <= i < old.len() ==> laid_out_from(
                non_phi_stmts(old[i].stmts@),
                (#[trigger] new[i]).stmts@,
                entry_allocas(block_labels(old), i, slot_allocas(order, slots)) + phi_loads(phis_of(old[i].stmts@), slots),
                edge_mid(old, i, slots),
            ),
        forall|i: int, k: int|
            0 <= i < old.len() && 0 <= k < phis_of(old[i].stmts@).len() ==> slots.contains_key(phi_vreg(#[trigger] phis_of(old[i].stmts@)[k])),
{
    assert forall|i: int, k: int|
        0 <= i < old.len() && 0 <= k < phis_of(old[i].stmts@).len() implies slots.contains_key(phi_vreg(#[trigger] phis_of(old[i].stmts@)[k])) by {
        lemma_block_loads(old, new, p0, pl, ed, slots, order, allocas, loads, first_id, i);
    }
    assert forall|i: int| 0 <= i < old.len() implies laid_out_from(
        non_phi_stmts(old[i].stmts@),
        (#[trigger] new[i]).stmts@,
        entry_allocas(block_labels(old), i, slot_allocas(order, slots)) + phi_loads(phis_of(old[i].stmts@), slots),
        edge_mid(old, i, slots),
    ) by {
        lemma_block_laid_out(old, new, p0, pl, ed, slots, order, allocas, loads, first_id, i);
    }
}

/// The pieces that PHI elimination builds make `phis_replaced`.
proof fn lemma_phis_replaced(
    old: Seq<BasicBlock>,
    new: Seq<BasicBlock>,
    p0: Seq<ParsedBlock>,
    pl: Seq<ParsedBlock>,
    ed: EdgeSplitter,
    slots: Map<usize, Operand>,
    order: Seq<usize>,
    allocas: Seq<Stmt>,
    loads: Seq<Vec<Stmt>>,
    first_id: int,
)
    requires
        elim_facts(old, new, p0, pl, ed, slots, order, allocas, loads, first_id),
    ensures
        phis_replaced(old, new, slots, order),
{
    lemma_facts_basic(old, new, p0, pl, ed, slots, order, allocas, loads, first_id);
    lemma_all_blocks(old, new, p0, pl, ed, slots, order, allocas, loads, first_id);
    lemma_all_split_edges(old, new, p0, pl, ed, slots, order, allocas, loads, first_id);
    lemma_all_kept_targets(old, new, p0, pl, ed, slots, order, allocas, loads, first_id);
    lemma_all_new_blocks(old, new, p0, pl, ed, slots, order, allocas, loads, first_id);
    assert(block_labels(old) == old.map_values(|b: BasicBlock| b.label));
}

impl<'a> PhiEliminator<'a> {
    fn new(blocks: &'a [BasicBlock], next_vreg: usize) -> (r: Self)
        ensures
            r.blocks == blocks,
            r.next_vreg == next_vreg,
    {
        Self { blocks, next_vreg }
    }

    fn parse_blocks(&self) -> (r: Vec<ParsedBlock>)
        requires
            phi_dsts_local(self.blocks@),
        ensures
            r@.len() == self.blocks@.len(),
            forall|i: int| 0 <= i < r@.len() ==> (#[trigger] r@[i]).label == self.blocks@[i].label,
            forall|i: int| 0 <= i < r@.len() ==> no_phi((#[trigger] r@[i]).body@),
            forall|i: int, k: int| 0 <= i < r@.len() && 0 <= k < r@[i].phis@.len() ==> (#[trigger] r@[i].phis@[k]).dst is Local,
            forall|i: int| 0 <= i < r@.len() ==> (#[trigger] r@[i]).phis@.len() <= self.blocks@[i].stmts@.len(),
            forall|i: int| 0 <= i < r@.len() ==> (#[trigger] r@[i]).body@.len() == non_phi_stmts(self.blocks@[i].stmts@).len(),
            forall|i: int, k: int|
                0 <= i < r@.len() && 0 <= k < r@[i].body@.len() ==> same_stmt(
                    #[trigger] r@[i].body@[k],
                    non_phi_stmts(self.blocks@[i].stmts@)[k],
                ),
            forall|i: int| 0 <= i < r@.len() ==> (#[trigger] r@[i]).phis@.len() == phis_of(self.blocks@[i].stmts@).len(),
            forall|i: int, k: int|
                0 <= i < r@.len() && 0 <= k < r@[i].phis@.len() ==> same_phi(#[trigger] r@[i].phis@[k], phis_of(self.blocks@[i].stmts@)[k]),
    {
        let mut out: Vec<ParsedBlock> = Vec::new();
        let mut i: usize = 0;
        while i < self.blocks.len()
            invariant
                phi_dsts_local(self.blocks@),
                i <= self.blocks@.len(),
                out@.len() == i,
                forall|j: int| 0 <= j < out@.len() ==> (#[trigger] out@[j]).label == self.blocks@[j].label,
                forall|j: int| 0 <= j < out@.len() ==> no_phi((#[trigger] out@[j]).body@),
                forall|j: int, k: int| 0 <= j < out@.len() && 0 <= k < out@[j].phis@.len() ==> (#[trigger] out@[j].phis@[k]).dst is Local,
                forall|j: int| 0 <= j < out@.len() ==> (#[trigger] out@[j]).phis@.len() <= self.blocks@[j].stmts@.len(),
                forall|j: int| 0 <= j < out@.len() ==> (#[trigger] out@[j]).body@.len() == non_phi_stmts(self.blocks@[j].stmts@).len(),
                forall|j: int, k: int|
                    0 <= j < out@.len() && 0 <= k < out@[j].body@.len() ==> same_stmt(
                        #[trigger] out@[j].body@[k],
                        non_phi_stmts(self.blocks@[j].stmts@)[k],
                    ),
                forall|j: int| 0 <= j < out@.len() ==> (#[trigger] out@[j]).phis@.len() == phis_of(self.blocks@[j].stmts@).len(),
                forall|j: int, k: int|
                    0 <= j < out@.len() && 0 <= k < out@[j].phis@.len() ==> same_phi(#[trigger] out@[j].phis@[k], phis_of(self.blocks@[j].stmts@)[k]),
            decreases self.blocks@.len() - i,
        {
            let b = &self.blocks[i];
            assert forall|k: int| 0 <= k < b.stmts@.len() implies match (#[trigger] b.stmts@[k]).inner {
                StmtInner::Phi(p) => p.dst is Local,
                _ => true,
            } by {
                assert(self.blocks@[i as int].stmts@[k] == b.stmts@[k]);
            }
            out.push(ParsedBlock::from_block(b));
            i += 1;
        }
        out
    }

    /// A load of each PHI destination from its slot, per block.
    fn build_phi_loads(&mut self, parsed: &Vec<ParsedBlock>, slots: &mut SlotAllocator) -> (r: Vec<Vec<Stmt>>)
        requires
            old(slots).wf(),
            slots_fresh(old(slots).slots@, old(self).next_vreg as int, old(self).next_vreg as int),
            parsed@.len() == old(self).blocks@.len(),
            forall|i: int, k: int| 0 <= i < parsed@.len() && 0 <= k < parsed@[i].phis@.len() ==> (#[trigger] parsed@[i].phis@[k]).dst is Local,
            forall|i: int| 0 <= i < parsed@.len() ==> (#[trigger] parsed@[i]).phis@.len() <= old(self).blocks@[i].stmts@.len(),
            old(self).next_vreg + stmt_count(old(self).blocks@) <= usize::MAX,
        ensures
            final(slots).wf(),
            final(self).blocks == old(self).blocks,
            final(self).next_vreg >= old(self).next_vreg,
            final(self).next_vreg == old(self).next_vreg + final(slots).order@.len() - old(slots).order@.len(),
            slots_fresh(final(slots).slots@, old(self).next_vreg as int, final(self).next_vreg as int),
            r@.len() == parsed@.len(),
            forall|i: int| 0 <= i < r@.len() ==> data_only((#[trigger] r@[i])@),
            forall|i: int, k: int|
                0 <= i < parsed@.len() && 0 <= k < parsed@[i].phis@.len() ==> final(slots).slots@.contains_key(
                    phi_vreg(#[trigger] parsed@[i].phis@[k]),
                ),
            forall|i: int| 0 <= i < r@.len() ==> (#[trigger] r@[i])@ == phi_loads(parsed@[i].phis@, final(slots).slots@),
    {
        let ghost start = self.next_vreg;
        let ghost o0 = slots.order@.len();
        let ghost blocks = self.blocks@;
        let mut out: Vec<Vec<Stmt>> = Vec::new();
        let mut i: usize = 0;
        while i < parsed.len()
            invariant
                slots.wf(),
                self.blocks@ == blocks,
                parsed@.len() == blocks.len(),
                forall|i: int, k: int| 0 <= i < parsed@.len() && 0 <= k < parsed@[i].phis@.len() ==> (#[trigger] parsed@[i].phis@[k]).dst is Local,
                forall|i: int| 0 <= i < parsed@.len() ==> (#[trigger] parsed@[i]).phis@.len() <= blocks[i].stmts@.len(),
                start + stmt_count(blocks) <= usize::MAX,
                i <= parsed@.len(),
                start <= self.next_vreg <= start + stmt_count(blocks.take(i as int)),
                self.next_vreg == start + slots.order@.len() - o0,
                slots_fresh(slots.slots@, start as int, self.next_vreg as int),
                out@.len() == i,
                forall|j: int| 0 <= j < out@.len() ==> data_only((#[trigger] out@[j])@),
                forall|j: int, k: int|
                    0 <= j < i && 0 <= k < parsed@[j].phis@.len() ==> slots.slots@.contains_key(phi_vreg(#[trigger] parsed@[j].phis@[k])),
                forall|j: int| 0 <= j < out@.len() ==> (#[trigger] out@[j])@ == phi_loads(parsed@[j].phis@, slots.slots@),
            decreases parsed@.len() - i,
        {
            proof {
                lemma_stmt_count_take(blocks, i as int);
                lemma_stmt_count_take_le(blocks, i + 1);
            }
            let phis = &parsed[i].phis;
            let mut loads: Vec<Stmt> = Vec::new();
            let mut k: usize = 0;
            while k < phis.len()
                invariant
                    slots.wf(),
                    i < parsed@.len(),
                    phis@ == parsed@[i as int].phis@,
                    forall|k: int| 0 <= k < phis@.len() ==> (#[trigger] phis@[k]).dst is Local,
                    phis@.len() <= blocks[i as int].stmts@.len(),
                    start + stmt_count(blocks.take(i + 1)) <= usize::MAX,
                    stmt_count(blocks.take(i + 1)) == stmt_count(blocks.take(i as int)) + blocks[i as int].stmts@.len(),
                    k <= phis@.len(),
                    start <= self.next_vreg <= start + stmt_count(blocks.take(i as int)) + k,
                    self.next_vreg == start + slots.order@.len() - o0,
                    self.blocks@ == blocks,
                    data_only(loads@),
                    slots_fresh(slots.slots@, start as int, self.next_vreg as int),
                    out@.len() == i,
                    forall|j: int, k: int|
                        0 <= j < i && 0 <= k < parsed@[j].phis@.len() ==> slots.slots@.contains_key(phi_vreg(#[trigger] parsed@[j].phis@[k])),
                    forall|j: int| 0 <= j < out@.len() ==> (#[trigger] out@[j])@ == phi_loads(parsed@[j].phis@, slots.slots@),
                    forall|t: int| 0 <= t < k ==> slots.slots@.contains_key(phi_vreg(#[trigger] phis@[t])),
                    loads@ == phi_loads(phis@.take(k as int), slots.slots@),
                decreases phis@.len() - k,
            {
                assert(phis@[k as int].dst is Local);
                let ghost s0 = slots.slots@;
                let ghost pre = loads@;
                let slot = slots.get_or_alloc(&phis[k].dst, &mut self.next_vreg);
                let d = phis[k].dst.clone();
                assert(d == phis@[k as int].dst);
                loads.push(Stmt::as_load(d, slot));
                proof {
                    let s1 = slots.slots@;
                    assert forall|j: int| 0 <= j < out@.len() implies (#[trigger] out@[j])@ == phi_loads(parsed@[j].phis@, s1) by {
                        assert forall|t: int| 0 <= t < parsed@[j].phis@.len() implies s1[phi_vreg(parsed@[j].phis@[t])] == s0[phi_vreg(
                            parsed@[j].phis@[t],
                        )] by {
                            assert(s0.contains_key(phi_vreg(parsed@[j].phis@[t])));
                        }
                        assert(phi_loads(parsed@[j].phis@, s1) =~= phi_loads(parsed@[j].phis@, s0));
                    }
                    assert forall|t: int| 0 <= t < k implies s1[phi_vreg(#[trigger] phis@[t])] == s0[phi_vreg(phis@[t])] by {
                        assert(s0.contains_key(phi_vreg(phis@[t])));
                    }
                    assert(loads@ =~= phi_loads(phis@.take(k + 1), s1));
                    assert(data_only(loads@)) by {
                        assert forall|t: int| 0 <= t < loads@.len() implies (#[trigger] loads@[t]).inner is Alloca
                            || loads@[t].inner is Load || loads@[t].inner is Store by {
                            if t < pre.len() {
                                assert(loads@[t] == pre[t]);
                            }
                        }
                    }
                }
                k += 1;
            }
            assert(phis@.take(phis@.len() as int) =~= phis@);
            out.push(loads);
            i += 1;
        }
        out
    }

    /// Places the stores of every PHI's incoming values on the edges from the
    /// block's predecessors.
    fn place_phi_stores(&mut self, parsed: &Vec<ParsedBlock>, cfg: &Cfg, slots: &SlotAllocator, edges: &mut EdgeSplitter)
        requires
            cfg.wf(),
            parsed@.len() == cfg.spec_labels().len(),
            forall|i: int| 0 <= i < cfg.spec_graph().succ_seqs().len() ==> (#[trigger] cfg.spec_graph().succ_seqs()[i]).len() <= 2,
            forall|i: int, k: int| 0 <= i < parsed@.len() && 0 <= k < parsed@[i].phis@.len() ==> (#[trigger] parsed@[i].phis@[k]).dst is Local,
            slots.wf(),
            forall|i: int, k: int|
                0 <= i < parsed@.len() && 0 <= k < parsed@[i].phis@.len() ==> slots.slots@.contains_key(phi_vreg(#[trigger] parsed@[i].phis@[k])),
            old(edges).wf(parsed@.len() as int),
            old(edges).pending_inserts@.len() == 0,
            old(edges).splits@.len() == 0,
            old(edges).next_block_id + 2 * parsed@.len() * parsed@.len() < usize::MAX,
        ensures
            final(edges).wf(parsed@.len() as int),
            final(edges).pending_ok(parsed_phis(parsed@), cfg.spec_labels(), cfg.spec_graph().succ_seqs(), slots.slots@),
            final(edges).splits_ok(
                parsed_phis(parsed@),
                cfg.spec_labels(),
                cfg.spec_graph().succ_seqs(),
                slots.slots@,
                old(edges).next_block_id as int,
            ),
            forall|p: int, s: int|
                0 <= p < parsed@.len() && 0 <= s < parsed@.len() && cfg.spec_graph().succ_seqs()[p].contains(s as usize)
                    && parsed@[s].phis@.len() > 0 ==> #[trigger] final(edges).covered(cfg.spec_graph().succ_seqs(), p, s),
            final(self).next_vreg == old(self).next_vreg,
            final(self).blocks == old(self).blocks,
    {
        let n = parsed.len();
        let ghost start = edges.next_block_id;
        let ghost succs = cfg.spec_graph().succ_seqs();
        let ghost labels = cfg.spec_labels();
        let ghost ph = parsed_phis(parsed@);
        let ghost sl = slots.slots@;
        let mut block_idx: usize = 0;
        while block_idx < n
            invariant
                cfg.wf(),
                n == parsed@.len(),
                n == cfg.spec_labels().len(),
                succs == cfg.spec_graph().succ_seqs(),
                labels == cfg.spec_labels(),
                ph == parsed_phis(parsed@),
                sl == slots.slots@,
                slots.wf(),
                forall|i: int, k: int|
                    0 <= i < parsed@.len() && 0 <= k < parsed@[i].phis@.len() ==> slots.slots@.contains_key(phi_vreg(#[trigger] parsed@[i].phis@[k])),
                forall|i: int| 0 <= i < succs.len() ==> (#[trigger] succs[i]).len() <= 2,
                forall|i: int, k: int| 0 <= i < parsed@.len() && 0 <= k < parsed@[i].phis@.len() ==> (#[trigger] parsed@[i].phis@[k]).dst is Local,
                edges.wf(n as int),
                edges.pending_ok(ph, labels, succs, sl),
                edges.splits_ok(ph, labels, succs, sl, start as int),
                forall|k: int| 0 <= k < edges.pending_inserts@.len() ==> succs[(#[trigger] edges.pending_inserts@[k]).0 as int][0] < block_idx,
                forall|p: int, s: int|
                    0 <= p < n && 0 <= s < block_idx && succs[p].contains(s as usize) && parsed@[s].phis@.len() > 0
                        ==> #[trigger] edges.covered(succs, p, s),
                start + 2 * n * n < usize::MAX,
                block_idx <= n,
                start <= edges.next_block_id <= start + 2 * n * block_idx,
            decreases n - block_idx,
        {
            proof {
                assert(2 * n * block_idx + 2 * n <= 2 * n * n) by (nonlinear_arith)
                    requires block_idx < n;
                assert(2 * n * (block_idx + 1) == 2 * n * block_idx + 2 * n) by (nonlinear_arith);
            }
            let phis = parsed[block_idx].phis.as_slice();
            assert(phis@ == ph[block_idx as int]);
            if phis.len() != 0 {
                let preds = cfg.predecessors(block_idx);
                proof {
                    cfg.spec_graph().lemma_preds(block_idx as int, 0);
                    lemma_pred_list_len(succs, block_idx, n as int);
                }
                let ghost base = edges.next_block_id;
                let mut k: usize = 0;
                while k < preds.len()
                    invariant
                        cfg.wf(),
                        n == parsed@.len(),
                        n == cfg.spec_labels().len(),
                        succs == cfg.spec_graph().succ_seqs(),
                        labels == cfg.spec_labels(),
                        ph == parsed_phis(parsed@),
                        sl == slots.slots@,
                        slots.wf(),
                        block_idx < n,
                        phis@ == parsed@[block_idx as int].phis@,
                        phis@ == ph[block_idx as int],
                        phis@.len() > 0,
                        forall|k: int| 0 <= k < phis@.len() ==> (#[trigger] phis@[k]).dst is Local,
                        forall|k: int| 0 <= k < phis@.len() ==> slots.slots@.contains_key(phi_vreg(#[trigger] phis@[k])),
                        preds@ == cfg.spec_graph().pred_seqs()[block_idx as int],
                        preds@.len() <= 2 * n,
                        forall|t: int| 0 <= t < preds@.len() ==> #[trigger] preds@[t] < n,
                        edges.wf(n as int),
                        edges.pending_ok(ph, labels, succs, sl),
                        edges.splits_ok(ph, labels, succs, sl, start as int),
                        forall|j: int|
                            0 <= j < edges.pending_inserts@.len() ==> succs[(#[trigger] edges.pending_inserts@[j]).0 as int][0] < block_idx
                                || (succs[edges.pending_inserts@[j].0 as int][0] == block_idx && exists|t: int|
                                0 <= t < k && preds@[t] == edges.pending_inserts@[j].0),
                        forall|p: int, s: int|
                            0 <= p < n && 0 <= s < block_idx && succs[p].contains(s as usize) && parsed@[s].phis@.len() > 0
                                ==> #[trigger] edges.covered(succs, p, s),
                        forall|t: int| 0 <= t < k ==> edges.covered(succs, #[trigger] preds@[t] as int, block_idx as int),
                        k <= preds@.len(),
                        start <= base,
                        base <= edges.next_block_id <= base + k,
                        base + 2 * n < usize::MAX,
                    decreases preds@.len() - k,
                {
                    let pred_idx = preds[k];
                    proof {
                        cfg.spec_graph().lemma_preds(block_idx as int, pred_idx);
                        assert(preds@.contains(pred_idx));
                        assert(succs[pred_idx as int].contains(block_idx));
                    }
                    let stores = slots.build_stores(phis, cfg.label(pred_idx));
                    assert(stores@.len() == phis@.len());
                    let ghost e0 = *edges;
                    if stores.len() != 0 {
                        if cfg.successors(pred_idx).len() == 1 {
                            proof {
                                assert(succs[pred_idx as int][0] == block_idx);
                                assert forall|j: int| 0 <= j < edges.pending_inserts@.len() implies (#[trigger] edges.pending_inserts@[j]).0
                                    != pred_idx by {
                                    if edges.pending_inserts@[j].0 == pred_idx {
                                        let t = choose|t: int| 0 <= t < k && preds@[t] == edges.pending_inserts@[j].0;
                                        lemma_count_in_two(preds@, pred_idx, t, k as int);
                                        lemma_pred_list_count(succs, block_idx, n as int, pred_idx);
                                        assert(succs[pred_idx as int].drop_last().len() == 0);
                                        assert(count_in(succs[pred_idx as int].drop_last(), block_idx) == 0);
                                        assert(succs[pred_idx as int].last() == block_idx);
                                        assert(count_in(succs[pred_idx as int], block_idx) == 1);
                                    }
                                }
                            }
                            edges.insert_at_pred(pred_idx, stores, Ghost(n as int), Ghost(ph), Ghost(labels), Ghost(succs), Ghost(sl));
                            proof {
                                let last = edges.pending_inserts@.len() - 1;
                                assert(edges.pending_inserts@[last].0 == pred_idx);
                                assert forall|p: int, s: int| 0 <= p < n && e0.covered(succs, p, s) implies #[trigger] edges.covered(succs, p, s) by {
                                    if succs[p].len() == 1 {
                                        let j = choose|j: int| 0 <= j < e0.pending_inserts@.len() && (#[trigger] e0.pending_inserts@[j]).0 == p;
                                        assert(edges.pending_inserts@[j] == e0.pending_inserts@[j]);
                                    } else {
                                        let j = choose|j: int| 0 <= j < e0.splits@.len() && (#[trigger] e0.splits@[j]).0 == p && e0.splits@[j].1 == s;
                                        assert(edges.splits@[j] == e0.splits@[j]);
                                    }
                                }
                                assert(edges.covered(succs, pred_idx as int, block_idx as int));
                                assert forall|j: int|
                                    0 <= j < edges.pending_inserts@.len() implies succs[(#[trigger] edges.pending_inserts@[j]).0 as int][0] < block_idx
                                        || (succs[edges.pending_inserts@[j].0 as int][0] == block_idx && exists|t: int|
                                        0 <= t < k + 1 && preds@[t] == edges.pending_inserts@[j].0) by {
                                    if j < last {
                                        assert(edges.pending_inserts@[j] == e0.pending_inserts@[j]);
                                    } else {
                                        assert(preds@[k as int] == edges.pending_inserts@[j].0);
                                    }
                                }
                            }
                        } else {
                            proof {
                                assert(preds@[k as int] < n);
                            }
                            edges.split(
                                pred_idx,
                                block_idx,
                                stores,
                                Ghost(n as int),
                                Ghost(ph),
                                Ghost(labels),
                                Ghost(succs),
                                Ghost(sl),
                                Ghost(start as int),
                            );
                        }
                    }
                    proof {
                        assert forall|t: int| 0 <= t < k + 1 implies edges.covered(succs, #[trigger] preds@[t] as int, block_idx as int) by {
                            if t < k {
                                assert(e0.covered(succs, preds@[t] as int, block_idx as int));
                            }
                        }
                        assert forall|p: int, s: int|
                            0 <= p < n && 0 <= s < block_idx && succs[p].contains(s as usize) && parsed@[s].phis@.len() > 0
                                implies #[trigger] edges.covered(succs, p, s) by {
                            assert(e0.covered(succs, p, s));
                        }
                    }
                    k += 1;
                }
                proof {
                    assert forall|p: int, s: int|
                        0 <= p < n && 0 <= s < block_idx + 1 && succs[p].contains(s as usize) && parsed@[s].phis@.len() > 0
                            implies #[trigger] edges.covered(succs, p, s) by {
                        if s == block_idx as int {
                            cfg.spec_graph().lemma_preds(block_idx as int, p as usize);
                            assert(preds@.contains(p as usize));
                            let t = choose|t: int| 0 <= t < preds@.len() && preds@[t] == p as usize;
                            assert(edges.covered(succs, preds@[t] as int, block_idx as int));
                        }
                    }
                }
            } else {
                proof {
                    assert forall|p: int, s: int|
                        0 <= p < n && 0 <= s < block_idx + 1 && succs[p].contains(s as usize) && parsed@[s].phis@.len() > 0
                            implies #[trigger] edges.covered(succs, p, s) by {
                        assert(s != block_idx as int);
                    }
                }
            }
            block_idx += 1;
        }
    }

    fn assemble(
        self,
        parsed: Vec<ParsedBlock>,
        labels: Vec<BlockLabel>,
        slots: SlotAllocator,
        phi_loads: Vec<Vec<Stmt>>,
        edges: EdgeSplitter,
    ) -> (r: Vec<BasicBlock>)
        requires
            parsed@.len() == labels@.len(),
            phi_loads@.len() == parsed@.len(),
            slots.wf(),
            edges.wf(parsed@.len() as int),
            forall|k1: int, k2: int|
                0 <= k1 < edges.pending_inserts@.len() && 0 <= k2 < edges.pending_inserts@.len() && k1 != k2
                    ==> (#[trigger] edges.pending_inserts@[k1]).0 != (#[trigger] edges.pending_inserts@[k2]).0,
            forall|i: int| 0 <= i < parsed@.len() ==> no_phi((#[trigger] parsed@[i]).body@),
            forall|i: int| 0 <= i < phi_loads@.len() ==> data_only((#[trigger] phi_loads@[i])@),
        ensures
            r@.len() == parsed@.len() + edges.splits@.len(),
            forall|i: int| 0 <= i < parsed@.len() ==> (#[trigger] r@[i]).label == parsed@[i].label,
            forall|i: int| 0 <= i < parsed@.len() ==> rebuilt_from(parsed@[i].body@, (#[trigger] r@[i]).stmts@),
            forall|i: int|
                0 <= i < parsed@.len() ==> laid_out(
                    parsed@[i].body@,
                    (#[trigger] r@[i]).stmts@,
                    entry_allocas(labels@, i, slots.allocas@) + phi_loads@[i]@,
                    pending_of(edges.pending_inserts@, i),
                ),
            forall|i: int| 0 <= i < r@.len() ==> no_phi((#[trigger] r@[i]).stmts@),
            forall|i: int|
                parsed@.len() <= i < r@.len() ==> (#[trigger] r@[i]).stmts@.len() > 0 && r@[i].stmts@.last().inner is Jump
                    && data_only(r@[i].stmts@.drop_last()),
            forall|j: int|
                0 <= j < edges.splits@.len() ==> split_block(#[trigger] r@[parsed@.len() + j], edges.splits@[j], labels@),
    {
        let n = parsed.len();
        let mut entry_idx: usize = 0;
        let mut t: usize = 0;
        while t < labels.len()
            invariant_except_break
                entry_idx == 0,
            invariant
                t <= labels@.len(),
                entry_index(labels@) == entry_from(labels@, t as int),
            ensures
                entry_idx as int == entry_index(labels@),
            decreases labels@.len() - t,
        {
            if let BlockLabel::Function(_) = &labels[t] {
                entry_idx = t;
                break;
            }
            proof {
                lemma_entry_from(labels@, t as int, t + 1);
            }
            t += 1;
        }
        let ghost allocas_seq = slots.allocas@;
        let allocas = slots.into_allocas();
        let mut result: Vec<BasicBlock> = Vec::new();
        let mut idx: usize = 0;
        while idx < n
            invariant
                n == parsed@.len(),
                phi_loads@.len() == n,
                labels@.len() == n,
                entry_idx as int == entry_index(labels@),
                allocas@ == allocas_seq,
                data_only(allocas@),
                edges.wf(n as int),
                forall|k1: int, k2: int|
                    0 <= k1 < edges.pending_inserts@.len() && 0 <= k2 < edges.pending_inserts@.len() && k1 != k2
                        ==> (#[trigger] edges.pending_inserts@[k1]).0 != (#[trigger] edges.pending_inserts@[k2]).0,
                forall|i: int| 0 <= i < parsed@.len() ==> no_phi((#[trigger] parsed@[i]).body@),
                forall|i: int| 0 <= i < phi_loads@.len() ==> data_only((#[trigger] phi_loads@[i])@),
                idx <= n,
                result@.len() == idx,
                forall|i: int| 0 <= i < result@.len() ==> (#[trigger] result@[i]).label == parsed@[i].label,
                forall|i: int| 0 <= i < result@.len() ==> rebuilt_from(parsed@[i].body@, (#[trigger] result@[i]).stmts@),
                forall|i: int|
                    0 <= i < result@.len() ==> laid_out(
                        parsed@[i].body@,
                        (#[trigger] result@[i]).stmts@,
                        entry_allocas(labels@, i, allocas_seq) + phi_loads@[i]@,
                        pending_of(edges.pending_inserts@, i),
                    ),
                forall|i: int| 0 <= i < result@.len() ==> no_phi((#[trigger] result@[i]).stmts@),
            decreases n - idx,
        {
            let mut stmts: Vec<Stmt> = Vec::new();
            if idx == entry_idx {
                let mut a = clone_stmts(&allocas);
                stmts.append(&mut a);
            }
            let ghost head = stmts@;
            proof {
                if idx == entry_idx {
                    assert(head =~= Seq::<Stmt>::empty() + head);
                } else {
                    assert(head.len() == 0);
                }
                assert(copies(head, entry_allocas(labels@, idx as int, allocas_seq)));
                assert(data_only(head)) by {
                    if head.len() > 0 {
                        assert(head == Seq::<Stmt>::empty() + head);
                    }
                }
            }
            let mut loads = clone_stmts(&phi_loads[idx]);
            proof {
                lemma_data_only_concat(stmts@, loads@);
                lemma_copies_concat(head, entry_allocas(labels@, idx as int, allocas_seq), loads@, phi_loads@[idx as int]@);
            }
            stmts.append(&mut loads);
            let ghost pre = stmts@;
            proof {
                lemma_data_only_no_phi(pre);
                assert(copies(pre, entry_allocas(labels@, idx as int, allocas_seq) + phi_loads@[idx as int]@));
            }
            let body = clone_stmts(&parsed[idx].body);
            let ghost pb = parsed@[idx as int].body@;
            let ghost b = body@;
            assert forall|k: int| 0 <= k < pb.len() implies same_but_targets(pb[k], #[trigger] b[k]) by {
                lemma_copy_same_but_targets(pb[k], b[k]);
            }
            assert(copies(b, pb));
            let mut k: usize = 0;
            while k < edges.pending_inserts.len()
                invariant
                    k <= edges.pending_inserts@.len(),
                    forall|t: int| 0 <= t < k ==> (#[trigger] edges.pending_inserts@[t]).0 != idx,
                ensures
                    k <= edges.pending_inserts@.len(),
                    forall|t: int| 0 <= t < k ==> (#[trigger] edges.pending_inserts@[t]).0 != idx,
                    k < edges.pending_inserts@.len() ==> edges.pending_inserts@[k as int].0 == idx,
                decreases edges.pending_inserts@.len() - k,
            {
                if edges.pending_inserts[k].0 == idx {
                    break;
                }
                k += 1;
            }
            if k < edges.pending_inserts.len() {
                let inserts = clone_stmts(&edges.pending_inserts[k].1);
                let ghost ins = inserts@;
                proof {
                    lemma_pending_of(edges.pending_inserts@, idx as int, k as int);
                    assert(copies(ins, pending_of(edges.pending_inserts@, idx as int)));
                }
                insert_before_terminator(&mut stmts, body, inserts);
                proof {
                    lemma_data_only_no_phi(ins);
                    if exists|pos: int| 0 <= pos < b.len() && (#[trigger] b[pos]).spec_is_terminator() && (forall|t: int|
                        pos < t < b.len() ==> !(#[trigger] b[t]).spec_is_terminator()) && stmts@
                        == pre + b.subrange(0, pos) + ins + b.subrange(pos, b.len() as int) {
                        let pos = choose|pos: int| 0 <= pos < b.len() && (#[trigger] b[pos]).spec_is_terminator() && (forall|t: int|
                            pos < t < b.len() ==> !(#[trigger] b[t]).spec_is_terminator()) && stmts@
                            == pre + b.subrange(0, pos) + ins + b.subrange(pos, b.len() as int);
                        lemma_no_phi_subrange(b, 0, pos);
                        lemma_no_phi_subrange(b, pos, b.len() as int);
                        lemma_no_phi_concat(pre, b.subrange(0, pos));
                        lemma_no_phi_concat(pre + b.subrange(0, pos), ins);
                        lemma_no_phi_concat(pre + b.subrange(0, pos) + ins, b.subrange(pos, b.len() as int));
                        lemma_rebuilt_from_intro(pb, stmts@, pre, b, ins, pos);
                        lemma_laid_out_intro(
                            pb,
                            stmts@,
                            entry_allocas(labels@, idx as int, allocas_seq) + phi_loads@[idx as int]@,
                            pending_of(edges.pending_inserts@, idx as int),
                            pre,
                            b,
                            ins,
                            pos,
                        );
                    } else {
                        lemma_no_phi_concat(pre, b);
                        lemma_no_phi_concat(pre + b, ins);
                        assert(stmts@ == pre + b + ins);
                        assert(stmts@ =~= pre + b.subrange(0, b.len() as int) + ins + b.subrange(b.len() as int, b.len() as int));
                        lemma_rebuilt_from_intro(pb, stmts@, pre, b, ins, b.len() as int);
                        lemma_laid_out_intro(
                            pb,
                            stmts@,
                            entry_allocas(labels@, idx as int, allocas_seq) + phi_loads@[idx as int]@,
                            pending_of(edges.pending_inserts@, idx as int),
                            pre,
                            b,
                            ins,
                            b.len() as int,
                        );
                    }
                }
            } else {
                let mut body = body;
                proof {
                    lemma_no_phi_concat(stmts@, body@);
                    lemma_pending_of_none(edges.pending_inserts@, idx as int);
                }
                stmts.append(&mut body);
                proof {
                    let e = Seq::<Stmt>::empty();
                    assert(data_only(e));
                    assert(copies(e, pending_of(edges.pending_inserts@, idx as int)));
                    assert(stmts@ =~= pre + b.subrange(0, b.len() as int) + e + b.subrange(b.len() as int, b.len() as int));
                    lemma_rebuilt_from_intro(pb, stmts@, pre, b, e, b.len() as int);
                    lemma_laid_out_intro(
                        pb,
                        stmts@,
                        entry_allocas(labels@, idx as int, allocas_seq) + phi_loads@[idx as int]@,
                        pending_of(edges.pending_inserts@, idx as int),
                        pre,
                        b,
                        e,
                        b.len() as int,
                    );
                }
            }
            result.push(BasicBlock { label: parsed[idx].label.clone(), stmts });
            idx += 1;
        }
        let mut extra = edges.materialize_splits(labels.as_slice());
        let ghost pre = result@;
        let ghost ex = extra@;
        result.append(&mut extra);
        assert forall|i: int| 0 <= i < result@.len() implies no_phi((#[trigger] result@[i]).stmts@) by {
            if i < pre.len() {
                assert(result@[i] == pre[i]);
            } else {
                assert(result@[i] == ex[i - pre.len()]);
            }
        }
        assert forall|i: int| n <= i < result@.len() implies (#[trigger] result@[i]).stmts@.len() > 0
            && result@[i].stmts@.last().inner is Jump && data_only(result@[i].stmts@.drop_last()) by {
            assert(result@[i] == ex[i - pre.len()]);
        }
        assert forall|j: int| 0 <= j < edges.splits@.len() implies split_block(#[trigger] result@[n + j], edges.splits@[j], labels@) by {
            assert(result@[n + j] == ex[j]);
        }
        assert forall|i: int| 0 <= i < n implies (#[trigger] result@[i]).label == parsed@[i].label by {
            assert(result@[i] == pre[i]);
        }
        assert forall|i: int| 0 <= i < n implies rebuilt_from(parsed@[i].body@, (#[trigger] result@[i]).stmts@) by {
            assert(result@[i] == pre[i]);
        }
        assert forall|i: int|
            0 <= i < n implies laid_out(
                parsed@[i].body@,
                (#[trigger] result@[i]).stmts@,
                entry_allocas(labels@, i, slots.allocas@) + phi_loads@[i]@,
                pending_of(edges.pending_inserts@, i),
            ) by {
            assert(result@[i] == pre[i]);
        }
        result
    }

    /// Eliminates the PHIs: returns the new blocks and the next free register.
    #[verifier::rlimit(60)]
    fn run(self) -> (r: (Vec<BasicBlock>, usize))
        requires
            phi_elimination_ready(self.blocks@, self.next_vreg),
        ensures
            r.0@.len() >= self.blocks@.len(),
            forall|i: int| 0 <= i < self.blocks@.len() ==> (#[trigger] r.0@[i]).label == self.blocks@[i].label,
            forall|i: int| 0 <= i < self.blocks@.len() ==> phi_eliminated_block(self.blocks@[i], #[trigger] r.0@[i]),
            forall|i: int| 0 <= i < r.0@.len() ==> no_phi((#[trigger] r.0@[i]).stmts@),
            forall|i: int|
                self.blocks@.len() <= i < r.0@.len() ==> (#[trigger] r.0@[i]).stmts@.len() > 0 && r.0@[i].stmts@.last().inner is Jump
                    && data_only(r.0@[i].stmts@.drop_last()),
            r.1 >= self.next_vreg,
            exists|slots: Map<usize, Operand>, order: Seq<usize>|
                slots_fresh(slots, self.next_vreg as int, r.1 as int) && #[trigger] phis_replaced(self.blocks@, r.0@, slots, order)
                    && r.1 == self.next_vreg + order.len(),
            added_labels_distinct(self.blocks@, r.0@),
    {
        let mut this = self;
        let ghost blocks = this.blocks@;
        let ghost start_vreg = this.next_vreg;
        let n = this.blocks.len();
        let mut parsed = this.parse_blocks();
        let cfg = Cfg::from_blocks(this.blocks);
        let mut slots = SlotAllocator::new();
        proof {
            if slots.order@.len() > 0 {
                assert(slots.slots@.contains_key(slots.order@[0]));
            }
        }
        let phi_loads = this.build_phi_loads(&parsed, &mut slots);
        let ghost sl = slots.slots@;
        let ghost order = slots.order@;
        proof {
            assert(cfg.spec_labels() == blocks.map_values(|b: BasicBlock| b.label));
            assert(cfg.spec_labels() == block_labels(blocks));
            lemma_block_succs_small(blocks);
        }
        let first_id = next_basic_block_id(cfg.labels());
        proof {
            if first_id > 1 {
                let i = choose|i: int| 0 <= i < cfg.spec_labels().len() && cfg.spec_labels()[i] == BlockLabel::BasicBlock((first_id - 1) as usize);
                assert(match cfg.spec_labels()[i] {
                    BlockLabel::BasicBlock(m) => m < usize::MAX - 2 * n * n - 2,
                    _ => true,
                });
            }
        }
        assert(parsed@.len() == n);
        assert(first_id + 2 * parsed@.len() * parsed@.len() < usize::MAX);
        let mut edges = EdgeSplitter::new(first_id);
        this.place_phi_stores(&parsed, &cfg, &slots, &mut edges);
        let ghost p0 = parsed@;
        let ghost ed = edges;
        edges.patch_terminators(&mut parsed, cfg.labels());
        let next_vreg = this.next_vreg;
        let mut labels: Vec<BlockLabel> = Vec::new();
        let mut t: usize = 0;
        while t < cfg.labels().len()
            invariant
                t <= cfg.spec_labels().len(),
                labels@ == cfg.spec_labels().take(t as int),
            decreases cfg.spec_labels().len() - t,
        {
            labels.push(cfg.labels()[t].clone());
            proof {
                assert(labels@ =~= cfg.spec_labels().take(t + 1));
            }
            t += 1;
        }
        proof {
            assert(labels@ =~= cfg.spec_labels());
        }
        let ghost pl = parsed@;
        let ghost allocas = slots.allocas@;
        let blocks_out = this.assemble(parsed, labels, slots, phi_loads, edges);
        assert forall|i: int| 0 <= i < blocks.len() implies (#[trigger] blocks_out@[i]).label == blocks[i].label by {
            assert(blocks_out@[i].label == pl[i].label);
        }
        assert forall|i: int| 0 <= i < blocks.len() implies phi_eliminated_block(blocks[i], #[trigger] blocks_out@[i]) by {
            let b0 = non_phi_stmts(blocks[i].stmts@);
            let b1 = pl[i].body@;
            assert(rebuilt_from(b1, blocks_out@[i].stmts@));
            assert forall|k: int| 0 <= k < b0.len() implies same_but_targets(b0[k], #[trigger] b1[k]) by {
                assert(same_stmt(p0[i].body@[k], b0[k]));
                lemma_copy_same_but_targets(b0[k], p0[i].body@[k]);
                assert(same_but_targets(p0[i].body@[k], b1[k]));
                lemma_same_but_targets_trans(b0[k], p0[i].body@[k], b1[k]);
            }
            lemma_rebuilt_from_earlier(b0, b1, blocks_out@[i].stmts@);
        }
        proof {
            assert(elim_facts(blocks, blocks_out@, p0, pl, ed, sl, order, allocas, phi_loads@, first_id as int)) by {
                reveal(elim_facts);
            }
            lemma_phis_replaced(blocks, blocks_out@, p0, pl, ed, sl, order, allocas, phi_loads@, first_id as int);
            assert(next_vreg == start_vreg + order.len());
            lemma_added_distinct(blocks, blocks_out@, ed.splits@, labels@);
        }
        (blocks_out, next_vreg)
    }
}

/// The blocks after PHI elimination: the old blocks keep their labels and
/// order and each keeps its other statements (`phi_eliminated_block`), new
/// blocks follow them and hold data moves ending with a jump, and no PHI is
/// left; the PHIs are replaced by stack slots, new registers numbered in
/// `[lo, hi)`, as `phis_replaced` says.
pub open spec fn phi_free_result(old_blocks: Seq<BasicBlock>, new_blocks: Seq<BasicBlock>, lo: int, hi: int) -> bool {
    &&& new_blocks.len() >= old_blocks.len()
    &&& exists|slots: Map<usize, Operand>, order: Seq<usize>|
        slots_fresh(slots, lo, hi) && #[trigger] phis_replaced(old_blocks, new_blocks, slots, order) && hi == lo + order.len()
    &&& added_labels_distinct(old_blocks, new_blocks)
    &&& forall|i: int| 0 <= i < old_blocks.len() ==> (#[trigger] new_blocks[i]).label == old_blocks[i].label
    &&& forall|i: int| 0 <= i < old_blocks.len() ==> phi_eliminated_block(old_blocks[i], #[trigger] new_blocks[i])
    &&& forall|i: int| 0 <= i < new_blocks.len() ==> no_phi((#[trigger] new_blocks[i]).stmts@)
    &&& forall|i: int|
        old_blocks.len() <= i < new_blocks.len() ==> (#[trigger] new_blocks[i]).stmts@.len() > 0
            && new_blocks[i].stmts@.last().inner is Jump && data_only(new_blocks[i].stmts@.drop_last())
}

/// The blocks added after those of `old` have pairwise different labels.
pub open spec fn added_labels_distinct(old: Seq<BasicBlock>, new: Seq<BasicBlock>) -> bool {
    forall|j1: int, j2: int|
        old.len() <= j1 < new.len() && old.len() <= j2 < new.len() && j1 != j2 ==> (#[trigger] new[j1]).label != (#[trigger] new[j2]).label
}

proof fn lemma_added_distinct(
    old: Seq<BasicBlock>,
    out: Seq<BasicBlock>,
    splits: Seq<(usize, usize, BlockLabel, Vec<Stmt>)>,
    labels: Seq<BlockLabel>,
)
    requires
        out.len() == old.len() + splits.len(),
        forall|j: int| 0 <= j < splits.len() ==> split_block(#[trigger] out[old.len() + j], splits[j], labels),
        forall|k1: int, k2: int|
            0 <= k1 < splits.len() && 0 <= k2 < splits.len() && k1 != k2 ==> (#[trigger] splits[k1]).2 != (#[trigger] splits[k2]).2,
    ensures
        added_labels_distinct(old, out),
{
    let n = old.len() as int;
    assert forall|j1: int, j2: int| n <= j1 < out.len() && n <= j2 < out.len() && j1 != j2 implies (#[trigger] out[j1]).label
        != (#[trigger] out[j2]).label by {
        assert(split_block(out[n + (j1 - n)], splits[j1 - n], labels));
        assert(split_block(out[n + (j2 - n)], splits[j2 - n], labels));
        assert(splits[j1 - n].2 != splits[j2 - n].2);
    }
}

/// The pass that replaces PHI nodes by stack slots.
pub struct PhiEliminationPass;

impl PhiEliminationPass {
    /// Replaces every PHI by a stack slot: the slot is allocated in the entry
    /// block, loaded at the top of the PHI's block and stored on every
    /// incoming edge (in the predecessor when it has one successor, else in a
    /// new block that splits the edge and to which the branch then goes).  A
    /// function without blocks, or without PHIs, is left as it is.
    pub fn run(&self, func: &mut Function)
        requires
            old(func).blocks is Some && blocks_have_phi(old(func).blocks.unwrap()@)
                ==> phi_elimination_ready(old(func).blocks.unwrap()@, old(func).next_vreg),
        ensures
            final(func).identifier == old(func).identifier,
            final(func).arguments == old(func).arguments,
            final(func).local_variables == old(func).local_variables,
            final(func).next_vreg >= old(func).next_vreg,
            old(func).blocks is None ==> final(func).blocks is None && final(func).next_vreg == old(func).next_vreg,
            old(func).blocks is Some && !blocks_have_phi(old(func).blocks.unwrap()@) ==> final(func).blocks == old(func).blocks
                && final(func).next_vreg == old(func).next_vreg,
            old(func).blocks is Some && blocks_have_phi(old(func).blocks.unwrap()@) ==> final(func).blocks is Some && phi_free_result(
                old(func).blocks.unwrap()@,
                final(func).blocks.unwrap()@,
                old(func).next_vreg as int,
                final(func).next_vreg as int,
            ),
    {
        let blocks = match func.blocks.take() {
            Some(b) => b,
            None => {
                return;
            },
        };
        if !has_phis(blocks.as_slice()) {
            func.blocks = Some(blocks);
            return;
        }
        let (new_blocks, next_vreg) = PhiEliminator::new(blocks.as_slice(), func.next_vreg).run();
        func.blocks = Some(new_blocks);
        func.next_vreg = next_vreg;
    }
}

/// The number of statements of `blocks` plus `base`, if that fits a `usize`.
pub fn checked_stmt_total(blocks: &[BasicBlock], base: usize) -> (r: Option<usize>)
    ensures
        r matches Some(t) ==> t == base + stmt_count(blocks@),
        r is None ==> base + stmt_count(blocks@) > usize::MAX,
{
    let mut total = base;
    let mut i: usize = 0;
    while i < blocks.len()
        invariant
            i <= blocks@.len(),
            total == base + stmt_count(blocks@.take(i as int)),
        decreases blocks@.len() - i,
    {
        proof {
            lemma_stmt_count_take(blocks@, i as int);
        }
        let len = blocks[i].stmts.len();
        if len > usize::MAX - total {
            proof {
                lemma_stmt_count_take_le(blocks@, i as int + 1);
            }
            return None;
        }
        total = total + len;
        i += 1;
    }
    assert(blocks@.take(i as int) =~= blocks@);
    Some(total)
}

/// Decides `phi_elimination_ready`.
pub fn phi_elimination_ready_check(blocks: &[BasicBlock], next_vreg: usize) -> (r: bool)
    ensures
        r == phi_elimination_ready(blocks@, next_vreg),
{
    if !jumps_are_resolved(blocks) {
        return false;
    }
    let mut i: usize = 0;
    while i < blocks.len()
        invariant
            i <= blocks@.len(),
            forall|a: int, k: int|
                0 <= a < i && 0 <= k < blocks@[a].stmts@.len() ==> match (#[trigger] blocks@[a].stmts@[k]).inner {
                    StmtInner::Phi(p) => p.dst is Local,
                    _ => true,
                },
        decreases blocks@.len() - i,
    {
        let stmts = &blocks[i].stmts;
        let mut k: usize = 0;
        while k < stmts.len()
            invariant
                i < blocks@.len(),
                stmts@ == blocks@[i as int].stmts@,
                k <= stmts@.len(),
                forall|a: int, c: int|
                    0 <= a < i && 0 <= c < blocks@[a].stmts@.len() ==> match (#[trigger] blocks@[a].stmts@[c]).inner {
                        StmtInner::Phi(p) => p.dst is Local,
                        _ => true,
                    },
                forall|c: int| 0 <= c < k ==> match (#[trigger] stmts@[c]).inner {
                    StmtInner::Phi(p) => p.dst is Local,
                    _ => true,
                },
            decreases stmts@.len() - k,
        {
            if let StmtInner::Phi(p) = &stmts[k].inner {
                if !matches!(p.dst, Operand::Local(_)) {
                    return false;
                }
            }
            k += 1;
        }
        i += 1;
    }
    if checked_stmt_total(blocks, next_vreg).is_none() {
        return false;
    }
    let n = blocks.len();
    let sq = match n.checked_mul(n) {
        Some(v) => v,
        None => {
            proof {
                assert(2 * n * n + 3 > usize::MAX) by (nonlinear_arith)
                    requires
                        n * n > usize::MAX;
            }
            return false;
        },
    };
    let sq2 = match sq.checked_mul(2) {
        Some(v) => v,
        None => {
            proof {
                assert(2 * n * n == sq * 2) by (nonlinear_arith)
                    requires
                        sq == n * n;
            }
            return false;
        },
    };
    proof {
        assert(2 * n * n == sq2) by (nonlinear_arith)
            requires
                sq == n * n,
                sq2 == sq * 2;
    }
    if sq2 > usize::MAX - 3 {
        return false;
    }
    let bound = usize::MAX - sq2 - 2;
    let mut i: usize = 0;
    while i < n
        invariant
            i <= n,
            n == blocks@.len(),
            bound == usize::MAX - 2 * n * n - 2,
            forall|j: int| 0 <= j < i ==> match (#[trigger] blocks@[j]).label {
                BlockLabel::BasicBlock(m) => m < bound,
                _ => true,
            },
        decreases n - i,
    {
        if let BlockLabel::BasicBlock(m) = &blocks[i].label {
            if *m >= bound {
                proof {
                    let labels = blocks@.map_values(|b: BasicBlock| b.label);
                    assert(labels[i as int] == blocks@[i as int].label);
                }
                return false;
            }
        }
        i += 1;
    }
    proof {
        let labels = blocks@.map_values(|b: BasicBlock| b.label);
        assert forall|j: int| 0 <= j < labels.len() implies match #[trigger] labels[j] {
            BlockLabel::BasicBlock(m) => m < usize::MAX - 2 * blocks@.len() * blocks@.len() - 2,
            _ => true,
        } by {
            assert(labels[j] == blocks@[j].label);
        }
    }
    true
}

} // verus!
