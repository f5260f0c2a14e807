use vstd::prelude::*;
use std::collections::HashMap;
use super::inst::Inst;
use super::types::{Addr, BinOp, IndexOperand, Operand, RegSize, Register};
use crate::codegen::error::Error;
use crate::codegen::frame::StackFrame;
use crate::common::text::{decimal, push_decimal, push_str};
use crate::common::graph::{
    all_nodes, label_map_of, lemma_label_map_key, least_live_out, models, node_labels, union_over, BackwardLiveness,
    CfgNode, Graph, Lattice, VregSet,
};

verus! {

broadcast use vstd::std_specs::hash::group_hash_axioms;

/// The number of registers that the allocator hands out.
pub const NUM_COLORS: usize = 8;

/// Scratch registers for spilled values.
pub const SCRATCH0: u8 = 16;
pub const SCRATCH1: u8 = 17;

/// The registers that the allocator hands out: `x8` to `x15`.
pub open spec fn is_allocatable(c: u8) -> bool {
    8 <= c < 16
}

// ---------------------------------------------------------------------------
// The model of a function's instructions
// ---------------------------------------------------------------------------

/// The registers that instruction `i` reads, as a set.
pub open spec fn used_sets(insts: Seq<Inst>) -> Seq<Set<usize>> {
    Seq::new(insts.len(), |i: int| insts[i].spec_used().to_set())
}

/// The registers that instruction `i` writes, as a set.
pub open spec fn defined_sets(insts: Seq<Inst>) -> Seq<Set<usize>> {
    Seq::new(insts.len(), |i: int| insts[i].spec_defined().to_set())
}

/// The control-flow successors of each instruction.
pub open spec fn inst_succs(insts: Seq<Inst>) -> Seq<Seq<usize>> {
    Seq::new(
        insts.len(),
        |i: int| insts[i].successor_view(i, insts.len() as int, label_map_of(node_labels(insts))),
    )
}

/// Every branch of the function names a label of the function.
pub open spec fn branches_resolved(insts: Seq<Inst>) -> bool {
    forall|i: int|
        0 <= i < insts.len() ==> (#[trigger] insts[i]).targets_known(
            label_map_of(node_labels(insts)),
        )
}

/// The registers live on exit from each instruction (the least solution).
pub open spec fn inst_live_out(insts: Seq<Inst>) -> Seq<Set<usize>> {
    least_live_out(used_sets(insts), defined_sets(insts), inst_succs(insts))
}

/// Instruction `i` makes `a` and `b` interfere: it writes one while the other is live after it.
pub open spec fn conflict_at(insts: Seq<Inst>, outs: Seq<Set<usize>>, i: int, a: usize, b: usize) -> bool {
    &&& a != b
    &&& (insts[i].spec_defined().contains(a) && outs[i].contains(b)) || (
    insts[i].spec_defined().contains(b) && outs[i].contains(a))
}

/// Some instruction before `m` makes `a` and `b` interfere.
pub open spec fn conflicts_before(
    insts: Seq<Inst>,
    outs: Seq<Set<usize>>,
    m: int,
    a: usize,
    b: usize,
) -> bool
    decreases m,
{
    if m <= 0 {
        false
    } else {
        conflicts_before(insts, outs, m - 1, a, b) || conflict_at(insts, outs, m - 1, a, b)
    }
}

/// `a` and `b` interfere in the function: one is written while the other is live.
pub open spec fn interferes(insts: Seq<Inst>, a: usize, b: usize) -> bool {
    conflicts_before(insts, inst_live_out(insts), insts.len() as int, a, b)
}

/// The virtual registers of the instructions before `m`.
pub open spec fn vregs_before(insts: Seq<Inst>, m: int) -> Set<usize>
    decreases m,
{
    if m <= 0 {
        Set::empty()
    } else {
        vregs_before(insts, m - 1).union(insts[m - 1].spec_used().to_set()).union(
            insts[m - 1].spec_defined().to_set(),
        )
    }
}

/// The virtual registers that the instructions read or write.
pub open spec fn all_vregs(insts: Seq<Inst>) -> Set<usize> {
    vregs_before(insts, insts.len() as int)
}

proof fn lemma_vregs_before_mono(insts: Seq<Inst>, m: int, k: int)
    requires
        0 <= k < m <= insts.len(),
    ensures
        insts[k].spec_used().to_set().subset_of(vregs_before(insts, m)),
        insts[k].spec_defined().to_set().subset_of(vregs_before(insts, m)),
    decreases m,
{
    if k < m - 1 {
        lemma_vregs_before_mono(insts, m - 1, k);
    }
}

proof fn lemma_vregs_before_bounded(insts: Seq<Inst>, m: int, bound: int)
    requires
        0 <= m <= insts.len(),
        forall|i: int, k: int|
            0 <= i < insts.len() && 0 <= k < insts[i].spec_used().len() ==> #[trigger] insts[i].spec_used()[k]
                < bound,
        forall|i: int, k: int|
            0 <= i < insts.len() && 0 <= k < insts[i].spec_defined().len() ==> #[trigger] insts[i].spec_defined()[k]
                < bound,
    ensures
        forall|v: usize| #[trigger] vregs_before(insts, m).contains(v) ==> v < bound,
    decreases m,
{
    if m > 0 {
        lemma_vregs_before_bounded(insts, m - 1, bound);
        assert forall|v: usize| #[trigger] vregs_before(insts, m).contains(v) implies v < bound by {
            let su = insts[m - 1].spec_used();
            let sd = insts[m - 1].spec_defined();
            if vregs_before(insts, m - 1).contains(v) {
                assert(v < bound);
            }
            if su.contains(v) {
                let k = choose|k: int| 0 <= k < su.len() && su[k] == v;
                assert(insts[m - 1].spec_used()[k] < bound);
            }
            if sd.contains(v) {
                let k = choose|k: int| 0 <= k < sd.len() && sd[k] == v;
                assert(insts[m - 1].spec_defined()[k] < bound);
            }
        }
    }
}

// ---------------------------------------------------------------------------
// Small helpers
// ---------------------------------------------------------------------------

fn contains(v: &Vec<usize>, x: usize) -> (r: bool)
    ensures
        r == v@.contains(x),
{
    crate::common::graph::vec_contains(v, x)
}

/// One more than the largest virtual register of the instructions (0 if none).
fn vreg_bound(insts: &[Inst]) -> (r: usize)
    requires
        forall|i: int, k: int|
            0 <= i < insts@.len() && 0 <= k < insts@[i].spec_used().len() ==> #[trigger] insts@[i].spec_used()[k]
                < usize::MAX,
        forall|i: int, k: int|
            0 <= i < insts@.len() && 0 <= k < insts@[i].spec_defined().len() ==> #[trigger] insts@[i].spec_defined()[k]
                < usize::MAX,
    ensures
        forall|i: int, k: int|
            0 <= i < insts@.len() && 0 <= k < insts@[i].spec_used().len() ==> #[trigger] insts@[i].spec_used()[k]
                < r,
        forall|i: int, k: int|
            0 <= i < insts@.len() && 0 <= k < insts@[i].spec_defined().len() ==> #[trigger] insts@[i].spec_defined()[k]
                < r,
{
    let mut bound: usize = 0;
    let mut i: usize = 0;
    while i < insts.len()
        invariant
            i <= insts@.len(),
            forall|i: int, k: int|
                0 <= i < insts@.len() && 0 <= k < insts@[i].spec_used().len() ==> #[trigger] insts@[i].spec_used()[k]
                    < usize::MAX,
            forall|i: int, k: int|
                0 <= i < insts@.len() && 0 <= k < insts@[i].spec_defined().len() ==> #[trigger] insts@[i].spec_defined()[k]
                    < usize::MAX,
            forall|j: int, k: int|
                0 <= j < i && 0 <= k < insts@[j].spec_used().len() ==> #[trigger] insts@[j].spec_used()[k]
                    < bound,
            forall|j: int, k: int|
                0 <= j < i && 0 <= k < insts@[j].spec_defined().len() ==> #[trigger] insts@[j].spec_defined()[k]
                    < bound,
        decreases insts@.len() - i,
    {
        let used = insts[i].used_vregs();
        let defd = insts[i].defined_vregs();
        let mut k: usize = 0;
        while k < used.len()
            invariant
                i < insts@.len(),
                used@ == insts@[i as int].spec_used(),
                k <= used.len(),
                forall|i: int, k: int|
                    0 <= i < insts@.len() && 0 <= k < insts@[i].spec_used().len() ==> #[trigger] insts@[i].spec_used()[k]
                        < usize::MAX,
                forall|j: int, k: int|
                    0 <= j < i && 0 <= k < insts@[j].spec_used().len() ==> #[trigger] insts@[j].spec_used()[k]
                        < bound,
                forall|j: int, k: int|
                    0 <= j < i && 0 <= k < insts@[j].spec_defined().len() ==> #[trigger] insts@[j].spec_defined()[k]
                        < bound,
                forall|t: int| 0 <= t < k ==> #[trigger] used@[t] < bound,
            decreases used.len() - k,
        {
            assert(insts@[i as int].spec_used()[k as int] < usize::MAX);
            if used[k] >= bound {
                bound = used[k] + 1;
            }
            k += 1;
        }
        let mut k: usize = 0;
        while k < defd.len()
            invariant
                i < insts@.len(),
                used@ == insts@[i as int].spec_used(),
                defd@ == insts@[i as int].spec_defined(),
                k <= defd.len(),
                forall|i: int, k: int|
                    0 <= i < insts@.len() && 0 <= k < insts@[i].spec_defined().len() ==> #[trigger] insts@[i].spec_defined()[k]
                        < usize::MAX,
                forall|j: int, k: int|
                    0 <= j < i && 0 <= k < insts@[j].spec_used().len() ==> #[trigger] insts@[j].spec_used()[k]
                        < bound,
                forall|j: int, k: int|
                    0 <= j < i && 0 <= k < insts@[j].spec_defined().len() ==> #[trigger] insts@[j].spec_defined()[k]
                        < bound,
                forall|t: int| 0 <= t < used@.len() ==> #[trigger] used@[t] < bound,
                forall|t: int| 0 <= t < k ==> #[trigger] defd@[t] < bound,
            decreases defd.len() - k,
        {
            assert(insts@[i as int].spec_defined()[k as int] < usize::MAX);
            if defd[k] >= bound {
                bound = defd[k] + 1;
            }
            k += 1;
        }
        i += 1;
    }
    bound
}

proof fn lemma_defined_at_most_one(inst: Inst)
    ensures
        inst.spec_defined().len() <= 1,
{
}

/// Adds the undirected edge `a — b`.
fn add_edge(adjacency: &mut Vec<Vec<usize>>, a: usize, b: usize)
    requires
        a < old(adjacency)@.len(),
        b < old(adjacency)@.len(),
        a != b,
        forall|x: int| 0 <= x < old(adjacency)@.len() ==> (#[trigger] old(adjacency)@[x])@.no_duplicates(),
    ensures
        final(adjacency)@.len() == old(adjacency)@.len(),
        forall|x: int| 0 <= x < final(adjacency)@.len() ==> (#[trigger] final(adjacency)@[x])@.no_duplicates(),
        forall|x: int, y: usize|
            0 <= x < final(adjacency)@.len() ==> (#[trigger] final(adjacency)@[x]@.contains(y) <==> (
            old(adjacency)@[x]@.contains(y) || (x == a && y == b) || (x == b && y == a))),
{
    let ghost pre = adjacency@;
    if !contains(&adjacency[a], b) {
        adjacency[a].push(b);
    }
    let ghost mid = adjacency@;
    assert forall|x: int, y: usize| 0 <= x < mid.len() implies (#[trigger] mid[x]@.contains(y) <==> (
        pre[x]@.contains(y) || (x == a && y == b))) && mid[x]@.no_duplicates() by {
        if x == a && !pre[x]@.contains(b) {
            assert(mid[x]@ == pre[x]@.push(b));
            if mid[x]@.contains(y) && y != b {
                let k = choose|k: int| 0 <= k < mid[x]@.len() && mid[x]@[k] == y;
                assert(pre[x]@[k] == y);
            }
            if pre[x]@.contains(y) {
                let k = choose|k: int| 0 <= k < pre[x]@.len() && pre[x]@[k] == y;
                assert(mid[x]@[k] == y);
            }
            if y == b {
                assert(mid[x]@[pre[x]@.len() as int] == b);
            }
        } else {
            assert(mid[x] == pre[x]);
        }
    }
    if !contains(&adjacency[b], a) {
        adjacency[b].push(a);
    }
    let ghost fin = adjacency@;
    assert forall|x: int, y: usize| 0 <= x < fin.len() implies (#[trigger] fin[x]@.contains(y) <==> (
        mid[x]@.contains(y) || (x == b && y == a))) && fin[x]@.no_duplicates() by {
        if x == b && !mid[x]@.contains(a) {
            assert(fin[x]@ == mid[x]@.push(a));
            if fin[x]@.contains(y) && y != a {
                let k = choose|k: int| 0 <= k < fin[x]@.len() && fin[x]@[k] == y;
                assert(mid[x]@[k] == y);
            }
            if mid[x]@.contains(y) {
                let k = choose|k: int| 0 <= k < mid[x]@.len() && mid[x]@[k] == y;
                assert(fin[x]@[k] == y);
            }
            if y == a {
                assert(fin[x]@[mid[x]@.len() as int] == a);
            }
        } else {
            assert(fin[x] == mid[x]);
        }
    }
}

// ---------------------------------------------------------------------------
// The interference graph
// ---------------------------------------------------------------------------

/// The interference graph of a function: its virtual registers, and for each
/// register (by number) the registers that it interferes with.
struct InterferenceGraph {
    nodes: Vec<usize>,
    adjacency: Vec<Vec<usize>>,
}

impl InterferenceGraph {
    /// `a` and `b` are neighbours.
    spec fn adj(&self, a: usize, b: usize) -> bool {
        a < self.adjacency@.len() && self.adjacency@[a as int]@.contains(b)
    }

    /// Register `c` is held by a neighbour of `v`.
    spec fn nb_holds(&self, coloring: Map<usize, u8>, v: usize, c: u8) -> bool {
        exists|u: usize| self.adj(v, u) && coloring.contains_key(u) && coloring[u] == c
    }

    /// Each colored node took the lowest register its neighbours left.
    spec fn lowest(&self, coloring: Map<usize, u8>) -> bool {
        forall|v: usize, c: u8|
            #[trigger] coloring.contains_key(v) && is_allocatable(c) && c < coloring[v] ==> #[trigger] self.nb_holds(coloring, v, c)
    }

    /// Every register that the allocator hands out is held by a neighbour of `v`.
    spec fn blocked(&self, coloring: Map<usize, u8>, v: usize) -> bool {
        forall|c: u8| #[trigger] is_allocatable(c) ==> exists|u: usize| self.adj(v, u) && coloring.contains_key(u) && coloring[u] == c
    }

    spec fn wf(&self) -> bool {
        &&& self.nodes@.no_duplicates()
        &&& forall|k: int| 0 <= k < self.nodes@.len() ==> #[trigger] self.nodes@[k] < self.adjacency@.len()
        &&& forall|a: int, k: int|
            0 <= a < self.adjacency@.len() && 0 <= k < self.adjacency@[a]@.len() ==> #[trigger] self.adjacency@[a]@[k]
                < self.adjacency@.len()
        &&& forall|a: int| 0 <= a < self.adjacency@.len() ==> (#[trigger] self.adjacency@[a])@.no_duplicates()
        &&& forall|a: usize, b: usize| #[trigger] self.adj(a, b) ==> self.adj(b, a) && a != b
        &&& forall|a: usize, b: usize| #[trigger] self.adj(a, b) ==> self.nodes@.contains(b)
    }

    /// Builds the graph: `a` and `b` are neighbours exactly when some
    /// instruction writes one of them while the other is live after it.
    fn build(instructions: &[Inst], liveness: &BackwardLiveness<VregSet>) -> (r: Self)
        requires
            liveness.live_out@.len() == instructions@.len(),
            forall|i: int|
                0 <= i < instructions@.len() ==> (#[trigger] models(liveness.live_out@)[i]).subset_of(
                    all_vregs(instructions@),
                ),
            forall|i: int, k: int|
                0 <= i < instructions@.len() && 0 <= k < instructions@[i].spec_used().len()
                    ==> #[trigger] instructions@[i].spec_used()[k] < usize::MAX,
            forall|i: int, k: int|
                0 <= i < instructions@.len() && 0 <= k < instructions@[i].spec_defined().len()
                    ==> #[trigger] instructions@[i].spec_defined()[k] < usize::MAX,
        ensures
            r.wf(),
            r.nodes@.to_set() == all_vregs(instructions@),
            forall|a: usize, b: usize|
                #[trigger] r.adj(a, b) <==> conflicts_before(
                    instructions@,
                    models(liveness.live_out@),
                    instructions@.len() as int,
                    a,
                    b,
                ),
    {
        let ghost insts = instructions@;
        let ghost outs = models(liveness.live_out@);
        let n = instructions.len();
        let bound = vreg_bound(instructions);
        proof {
            lemma_vregs_before_bounded(insts, n as int, bound as int);
        }
        let mut adjacency: Vec<Vec<usize>> = Vec::new();
        let mut seen: Vec<bool> = Vec::new();
        let mut t: usize = 0;
        while t < bound
            invariant
                t <= bound,
                adjacency@.len() == t,
                seen@.len() == t,
                forall|x: int| 0 <= x < t ==> (#[trigger] adjacency@[x])@ == Seq::<usize>::empty(),
                forall|x: int| 0 <= x < t ==> !(#[trigger] seen@[x]),
            decreases bound - t,
        {
            adjacency.push(Vec::new());
            seen.push(false);
            t += 1;
        }

        // the nodes, in order of first appearance
        let mut nodes: Vec<usize> = Vec::new();
        let mut i: usize = 0;
        while i < n
            invariant
                i <= n,
                n == insts.len(),
                insts == instructions@,
                seen@.len() == bound,
                forall|i: int, k: int|
                    0 <= i < insts.len() && 0 <= k < insts[i].spec_used().len() ==> #[trigger] insts[i].spec_used()[k]
                        < bound,
                forall|i: int, k: int|
                    0 <= i < insts.len() && 0 <= k < insts[i].spec_defined().len() ==> #[trigger] insts[i].spec_defined()[k]
                        < bound,
                nodes@.no_duplicates(),
                nodes@.to_set() == vregs_before(insts, i as int),
                forall|v: int| 0 <= v < bound ==> (#[trigger] seen@[v] <==> nodes@.contains(v as usize)),
            decreases n - i,
        {
            let regs_a = instructions[i].used_vregs();
            let regs_b = instructions[i].defined_vregs();
            let mut pass: usize = 0;
            let ghost base = nodes@.to_set();
            while pass < 2
                invariant
                    pass <= 2,
                    i < n,
                    n == insts.len(),
                    insts == instructions@,
                    regs_a@ == insts[i as int].spec_used(),
                    regs_b@ == insts[i as int].spec_defined(),
                    seen@.len() == bound,
                    forall|i: int, k: int|
                        0 <= i < insts.len() && 0 <= k < insts[i].spec_used().len() ==> #[trigger] insts[i].spec_used()[k]
                            < bound,
                    forall|i: int, k: int|
                        0 <= i < insts.len() && 0 <= k < insts[i].spec_defined().len() ==> #[trigger] insts[i].spec_defined()[k]
                            < bound,
                    nodes@.no_duplicates(),
                    pass == 0 ==> nodes@.to_set() == base,
                    pass == 1 ==> nodes@.to_set() == base.union(regs_a@.to_set()),
                    pass == 2 ==> nodes@.to_set() == base.union(regs_a@.to_set()).union(regs_b@.to_set()),
                    forall|v: int| 0 <= v < bound ==> (#[trigger] seen@[v] <==> nodes@.contains(v as usize)),
                decreases 2 - pass,
            {
                let regs = if pass == 0 { &regs_a } else { &regs_b };
                let ghost start = nodes@.to_set();
                let mut k: usize = 0;
                assert(regs@.take(0).to_set() =~= Set::<usize>::empty());
                while k < regs.len()
                    invariant
                        k <= regs@.len(),
                        forall|t: int| 0 <= t < regs@.len() ==> #[trigger] regs@[t] < bound,
                        seen@.len() == bound,
                        nodes@.no_duplicates(),
                        nodes@.to_set() == start.union(regs@.take(k as int).to_set()),
                        forall|v: int| 0 <= v < bound ==> (#[trigger] seen@[v] <==> nodes@.contains(v as usize)),
                    decreases regs@.len() - k,
                {
                    let v = regs[k];
                    proof {
                        assert(regs@.take(k + 1) == regs@.take(k as int).push(v));
                        crate::common::graph::lemma_push_to_set(regs@.take(k as int), v);
                    }
                    if !seen[v] {
                        seen.set(v, true);
                        let ghost pre_nodes = nodes@;
                        nodes.push(v);
                        proof {
                            crate::common::graph::lemma_push_to_set(pre_nodes, v);
                            assert forall|x: int| 0 <= x < bound implies (#[trigger] seen@[x]
                                <==> nodes@.contains(x as usize)) by {
                                if pre_nodes.contains(x as usize) {
                                    let q = choose|q: int| 0 <= q < pre_nodes.len() && pre_nodes[q] == x as usize;
                                    assert(nodes@[q] == x);
                                }
                                if nodes@.contains(x as usize) && x != v {
                                    let q = choose|q: int| 0 <= q < nodes@.len() && nodes@[q] == x as usize;
                                    assert(pre_nodes[q] == x);
                                }
                                if x == v {
                                    assert(nodes@[pre_nodes.len() as int] == v);
                                }
                            }
                        }
                    }
                    assert(nodes@.to_set() =~= start.union(regs@.take(k + 1).to_set()));
                    k += 1;
                }
                assert(regs@.take(regs@.len() as int) =~= regs@);
                pass += 1;
            }
            assert(nodes@.to_set() =~= vregs_before(insts, i + 1));
            i += 1;
        }

        // the edges
        let mut i: usize = 0;
        while i < n
            invariant
                i <= n,
                n == insts.len(),
                insts == instructions@,
                outs == models(liveness.live_out@),
                outs.len() == n,
                adjacency@.len() == bound,
                forall|i: int| 0 <= i < insts.len() ==> (#[trigger] outs[i]).subset_of(all_vregs(insts)),
                forall|v: usize| #[trigger] vregs_before(insts, n as int).contains(v) ==> v < bound,
                forall|i: int, k: int|
                    0 <= i < insts.len() && 0 <= k < insts[i].spec_defined().len() ==> #[trigger] insts[i].spec_defined()[k]
                        < bound,
                forall|x: int| 0 <= x < bound ==> (#[trigger] adjacency@[x])@.no_duplicates(),
                forall|a: int, b: usize|
                    0 <= a < bound ==> (#[trigger] adjacency@[a]@.contains(b) <==> conflicts_before(
                        insts,
                        outs,
                        i as int,
                        a as usize,
                        b,
                    )),
            decreases n - i,
        {
            let defs = instructions[i].defined_vregs();
            proof {
                lemma_defined_at_most_one(insts[i as int]);
            }
            if defs.len() > 0 {
                let d = defs[0];
                assert(insts[i as int].spec_defined()[0] < bound);
                let out = &liveness.live_out[i].0;
                assert(outs[i as int] == out@.to_set());
                let mut k: usize = 0;
                while k < out.len()
                    invariant
                        i < n,
                        n == insts.len(),
                        defs@ == insts[i as int].spec_defined(),
                        defs@ == seq![d],
                        d < bound,
                        out@.to_set() == outs[i as int],
                        outs[i as int].subset_of(all_vregs(insts)),
                        forall|v: usize| #[trigger] vregs_before(insts, n as int).contains(v) ==> v < bound,
                        k <= out@.len(),
                        adjacency@.len() == bound,
                        forall|x: int| 0 <= x < bound ==> (#[trigger] adjacency@[x])@.no_duplicates(),
                        forall|a: int, b: usize|
                            0 <= a < bound ==> (#[trigger] adjacency@[a]@.contains(b) <==> (conflicts_before(
                                insts,
                                outs,
                                i as int,
                                a as usize,
                                b,
                            ) || (a != b && ((a == d && out@.take(k as int).contains(b)) || (b == d
                                && out@.take(k as int).contains(a as usize)))))),
                    decreases out@.len() - k,
                {
                    let r = out[k];
                    assert(out@.to_set().contains(r));
                    assert(r < bound);
                    assert(out@.take(k + 1) == out@.take(k as int).push(r));
                    if d != r {
                        add_edge(&mut adjacency, d, r);
                    }
                    assert forall|a: int, b: usize| 0 <= a < bound implies (#[trigger] adjacency@[a]@.contains(b) <==> (
                        conflicts_before(insts, outs, i as int, a as usize, b) || (a != b && ((a == d
                            && out@.take(k + 1).contains(b)) || (b == d && out@.take(k + 1).contains(
                            a as usize,
                        )))))) by {
                        lemma_push_contains(out@.take(k as int), r, b);
                        lemma_push_contains(out@.take(k as int), r, a as usize);
                    }
                    k += 1;
                }
                assert(out@.take(out@.len() as int) =~= out@);
                assert forall|a: int, b: usize| 0 <= a < bound implies (#[trigger] adjacency@[a]@.contains(b)
                    <==> conflicts_before(insts, outs, i + 1, a as usize, b)) by {
                    assert(insts[i as int].spec_defined().contains(a as usize) <==> a == d);
                    assert(insts[i as int].spec_defined().contains(b) <==> b == d);
                    assert(outs[i as int].contains(b) <==> out@.contains(b));
                    assert(outs[i as int].contains(a as usize) <==> out@.contains(a as usize));
                }
            } else {
                assert forall|a: int, b: usize| 0 <= a < bound implies (#[trigger] adjacency@[a]@.contains(b)
                    <==> conflicts_before(insts, outs, i + 1, a as usize, b)) by {
                    assert(!insts[i as int].spec_defined().contains(a as usize));
                    assert(!insts[i as int].spec_defined().contains(b));
                }
            }
            i += 1;
        }
        let r = InterferenceGraph { nodes, adjacency };
        proof {
            assert forall|a: usize, b: usize| #[trigger] r.adj(a, b) <==> conflicts_before(
                insts,
                outs,
                n as int,
                a,
                b,
            ) by {
                lemma_conflict_members(insts, outs, n as int, a, b);
                if conflicts_before(insts, outs, n as int, a, b) {
                    assert(vregs_before(insts, n as int).contains(a));
                }
                if a < bound {
                    assert(r.adjacency@[a as int]@.contains(b) == conflicts_before(insts, outs, n as int, a, b));
                }
            }
            assert forall|a: usize, b: usize| #[trigger] r.adj(a, b) implies r.adj(b, a) && a != b by {
                lemma_conflict_members(insts, outs, n as int, a, b);
                lemma_conflict_symmetric(insts, outs, n as int, a, b);
                assert(vregs_before(insts, n as int).contains(b));
            }
            assert forall|a: usize, b: usize| #[trigger] r.adj(a, b) implies r.nodes@.contains(b) by {
                lemma_conflict_members(insts, outs, n as int, a, b);
                assert(r.nodes@.to_set().contains(b));
            }
            assert forall|a: int, k: int|
                0 <= a < r.adjacency@.len() && 0 <= k < r.adjacency@[a]@.len() implies #[trigger] r.adjacency@[a]@[k]
                    < r.adjacency@.len() by {
                let b = r.adjacency@[a]@[k];
                assert(r.adjacency@[a]@.contains(b));
                assert(r.adj(a as usize, b));
                lemma_conflict_members(insts, outs, n as int, a as usize, b);
                assert(vregs_before(insts, n as int).contains(b));
            }
            assert forall|k: int| 0 <= k < r.nodes@.len() implies #[trigger] r.nodes@[k] < r.adjacency@.len() by {
                assert(r.nodes@.to_set().contains(r.nodes@[k]));
            }
        }
        r
    }
}

proof fn lemma_push_contains(s: Seq<usize>, x: usize, y: usize)
    ensures
        s.push(x).contains(y) <==> (s.contains(y) || y == x),
{
    if s.push(x).contains(y) && y != x {
        let k = choose|k: int| 0 <= k < s.push(x).len() && s.push(x)[k] == y;
        assert(s[k] == y);
    }
    if s.contains(y) {
        let k = choose|k: int| 0 <= k < s.len() && s[k] == y;
        assert(s.push(x)[k] == y);
    }
    if y == x {
        assert(s.push(x)[s.len() as int] == x);
    }
}

proof fn lemma_conflict_symmetric(insts: Seq<Inst>, outs: Seq<Set<usize>>, m: int, a: usize, b: usize)
    ensures
        conflicts_before(insts, outs, m, a, b) == conflicts_before(insts, outs, m, b, a),
        conflicts_before(insts, outs, m, a, b) ==> a != b,
    decreases m,
{
    if m > 0 {
        lemma_conflict_symmetric(insts, outs, m - 1, a, b);
    }
}

/// Registers that conflict are registers of the instructions (when live-out
/// sets hold only such registers).
proof fn lemma_conflict_members(insts: Seq<Inst>, outs: Seq<Set<usize>>, m: int, a: usize, b: usize)
    requires
        0 <= m <= insts.len(),
        outs.len() == insts.len(),
        forall|i: int| 0 <= i < insts.len() ==> (#[trigger] outs[i]).subset_of(all_vregs(insts)),
    ensures
        conflicts_before(insts, outs, m, a, b) ==> all_vregs(insts).contains(a) && all_vregs(
            insts,
        ).contains(b),
    decreases m,
{
    if m > 0 {
        lemma_conflict_members(insts, outs, m - 1, a, b);
        if conflict_at(insts, outs, m - 1, a, b) {
            lemma_vregs_before_mono(insts, insts.len() as int, m - 1);
            assert(insts[m - 1].spec_defined().to_set().subset_of(all_vregs(insts)));
            assert(outs[m - 1].subset_of(all_vregs(insts)));
            if insts[m - 1].spec_defined().contains(a) {
                assert(insts[m - 1].spec_defined().to_set().contains(a));
            }
            if insts[m - 1].spec_defined().contains(b) {
                assert(insts[m - 1].spec_defined().to_set().contains(b));
            }
        }
    }
}

/// How many entries of `l` are not in `s`.
pub open spec fn count_outside(l: Seq<usize>, s: Seq<usize>) -> nat
    decreases l.len(),
{
    if l.len() == 0 {
        0
    } else {
        count_outside(l.drop_last(), s) + if s.contains(l.last()) { 0nat } else { 1nat }
    }
}

/// The degree of `v` in the graph `adjacency` once the nodes of `removed` are gone.
pub open spec fn remaining_degree(adjacency: Seq<Vec<usize>>, removed: Seq<usize>, v: usize) -> nat {
    count_outside(adjacency[v as int]@, removed)
}

proof fn lemma_count_outside_none(l: Seq<usize>)
    ensures
        count_outside(l, Seq::empty()) == l.len(),
    decreases l.len(),
{
    if l.len() > 0 {
        lemma_count_outside_none(l.drop_last());
    }
}

/// Removing one more node `p` lowers the count by one where `l` holds `p`.
proof fn lemma_count_outside_push(l: Seq<usize>, s: Seq<usize>, p: usize)
    requires
        l.no_duplicates(),
        !s.contains(p),
    ensures
        count_outside(l, s.push(p)) + (if l.contains(p) { 1int } else { 0int }) == count_outside(l, s),
    decreases l.len(),
{
    if l.len() > 0 {
        let d = l.drop_last();
        assert(d.no_duplicates()) by {
            assert forall|i: int, j: int| 0 <= i < j < d.len() implies d[i] != d[j] by {
                assert(d[i] == l[i] && d[j] == l[j]);
            }
        }
        lemma_count_outside_push(d, s, p);
        lemma_push_contains(s, p, l.last());
        if l.last() == p {
            assert(!d.contains(p)) by {
                if d.contains(p) {
                    let k = choose|k: int| 0 <= k < d.len() && d[k] == p;
                    assert(l[k] == l[l.len() - 1]);
                }
            }
            assert(l.contains(p)) by {
                assert(l[l.len() - 1] == p);
            }
        } else {
            assert(l.contains(p) == d.contains(p)) by {
                if l.contains(p) {
                    let k = choose|k: int| 0 <= k < l.len() && l[k] == p;
                    assert(k < l.len() - 1);
                    assert(d[k] == p);
                }
                if d.contains(p) {
                    let k = choose|k: int| 0 <= k < d.len() && d[k] == p;
                    assert(l[k] == p);
                }
            }
        }
    }
}

/// A list that holds a node not yet removed counts it.
proof fn lemma_count_outside_pos(l: Seq<usize>, s: Seq<usize>, p: usize)
    requires
        l.contains(p),
        !s.contains(p),
    ensures
        count_outside(l, s) >= 1,
    decreases l.len(),
{
    if l.last() != p {
        let d = l.drop_last();
        let k = choose|k: int| 0 <= k < l.len() && l[k] == p;
        assert(k < l.len() - 1);
        assert(d[k] == p);
        lemma_count_outside_pos(d, s, p);
    }
}

/// The order in which simplification removes the nodes, with the marks of
/// potential spills: a node is marked only if removed, and it is marked
/// exactly when it still has at least `NUM_COLORS` neighbours left when it
/// is removed; it is then removed only when every node left has that many,
/// and it has the most neighbours left.
pub open spec fn simplify_order(adjacency: Seq<Vec<usize>>, nodes: Seq<usize>, order: Seq<usize>, spills: Seq<bool>) -> bool {
    &&& forall|x: int| 0 <= x < spills.len() && #[trigger] spills[x] ==> order.contains(x as usize)
    &&& forall|i: int|
        0 <= i < order.len() ==> (spills[order[i] as int] <==> remaining_degree(adjacency, order.take(i), #[trigger] order[i])
            >= NUM_COLORS)
    &&& forall|i: int, x: usize|
        0 <= i < order.len() && spills[order[i] as int] && nodes.contains(x) && !order.take(i).contains(x)
            ==> NUM_COLORS <= #[trigger] remaining_degree(adjacency, order.take(i), x) <= remaining_degree(
            adjacency,
            order.take(i),
            order[i],
        )
}

/// Node `x` has fewer than `NUM_COLORS` neighbours left once the first `t`
/// nodes of `order` are removed.
pub open spec fn low_at(adjacency: Seq<Vec<usize>>, order: Seq<usize>, t: int, x: usize) -> bool {
    remaining_degree(adjacency, order.take(t), x) < NUM_COLORS
}

/// Low-degree nodes are removed first come, first served: a node that has
/// few neighbours left at some point is removed before any node that is not
/// marked as a potential spill and does not have few neighbours left then.
pub open spec fn simplify_fifo(adjacency: Seq<Vec<usize>>, order: Seq<usize>, spills: Seq<bool>) -> bool {
    forall|i: int, j: int, t: int|
        #![trigger low_at(adjacency, order, t, order[i]), low_at(adjacency, order, t, order[j])]
        0 <= t <= i < order.len() && t <= j < order.len() && low_at(adjacency, order, t, order[i]) && !low_at(
            adjacency,
            order,
            t,
            order[j],
        ) && !spills[order[j] as int] ==> i < j
}

/// The nodes of `q` in order of `since`.
pub open spec fn sorted_by(q: Seq<usize>, since: Seq<int>) -> bool {
    forall|a: int, b: int| 0 <= a < b < q.len() ==> since[#[trigger] q[a] as int] <= since[#[trigger] q[b] as int]
}

/// Removing more nodes leaves no more neighbours.
proof fn lemma_count_outside_anti(l: Seq<usize>, a: Seq<usize>, b: Seq<usize>)
    requires
        forall|x: usize| a.contains(x) ==> b.contains(x),
    ensures
        count_outside(l, b) <= count_outside(l, a),
    decreases l.len(),
{
    if l.len() > 0 {
        lemma_count_outside_anti(l.drop_last(), a, b);
    }
}

proof fn lemma_low_at_later(adjacency: Seq<Vec<usize>>, order: Seq<usize>, s: int, t: int, x: usize)
    requires
        0 <= s <= t <= order.len(),
        low_at(adjacency, order, s, x),
    ensures
        low_at(adjacency, order, t, x),
{
    let (os, ot) = (order.take(s), order.take(t));
    assert forall|y: usize| os.contains(y) implies ot.contains(y) by {
        let k = choose|k: int| 0 <= k < os.len() && os[k] == y;
        assert(ot[k] == y);
    }
    lemma_count_outside_anti(adjacency[x as int]@, order.take(s), order.take(t));
}

/// How the ghost record of when each node joined the low-degree queue
/// (`since`, -1 for never) relates to the removal order so far: a node
/// joined when it first had few neighbours left, and each node taken from
/// the queue had joined no later than any node still waiting.
spec fn since_ok(adjacency: Seq<Vec<usize>>, nodes: Seq<usize>, order: Seq<usize>, spills: Seq<bool>, since: Seq<int>) -> bool {
    let n = order.len() as int;
    &&& forall|x: usize, t: int|
        #![trigger low_at(adjacency, order, t, x), nodes.contains(x)]
        nodes.contains(x) && 0 <= t <= n && !order.take(t).contains(x) && low_at(adjacency, order, t, x) ==> 0
            <= since[x as int] <= t
    &&& forall|x: usize| #[trigger] nodes.contains(x) && 0 <= since[x as int] ==> since[x as int] <= n && low_at(adjacency, order, since[x as int], x)
    &&& forall|j: int| 0 <= j < n && !spills[#[trigger] order[j] as int] ==> 0 <= since[order[j] as int] <= j
    &&& forall|j: int, x: usize|
        #![trigger order[j], nodes.contains(x)]
        0 <= j < n && !spills[order[j] as int] && nodes.contains(x) && !order.take(j + 1).contains(x) && 0 <= since[x as int]
            <= j ==> since[x as int] >= since[order[j] as int]
}

proof fn lemma_since_ok_push(
    adjacency: Seq<Vec<usize>>,
    nodes: Seq<usize>,
    st0: Seq<usize>,
    sp0: Seq<bool>,
    sp1: Seq<bool>,
    since0: Seq<int>,
    since1: Seq<int>,
    q0: Seq<usize>,
    removed0: Seq<bool>,
    p: usize,
)
    requires
        since_ok(adjacency, nodes, st0, sp0, since0),
        !st0.contains(p),
        nodes.contains(p),
        forall|k: int| 0 <= k < st0.len() ==> nodes.contains(#[trigger] st0[k]),
        forall|x: usize| #[trigger] nodes.contains(x) ==> (x as int) < since0.len(),
        since0.len() == since1.len(),
        sp0.len() == since0.len(),
        sp1.len() == since0.len(),
        removed0.len() == since0.len(),
        forall|x: int| 0 <= x < removed0.len() ==> (#[trigger] removed0[x] <==> st0.contains(x as usize)),
        forall|x: int| 0 <= x < sp0.len() && x != p as int ==> #[trigger] sp1[x] == sp0[x],
        !sp1[p as int] ==> q0.contains(p) && forall|x: usize|
            #[trigger] q0.contains(x) && !removed0[x as int] ==> since0[x as int] >= since0[p as int],
        forall|k: int| 0 <= k < q0.len() ==> 0 <= #[trigger] since0[q0[k] as int] <= st0.len(),
        forall|x: usize| #[trigger] nodes.contains(x) && !st0.contains(x) && since0[x as int] >= 0 ==> q0.contains(x),
        forall|x: int|
            0 <= x < since0.len() ==> #[trigger] since1[x] == since0[x] || (since0[x] == -1 && since1[x] == st0.len() + 1
                && !st0.push(p).contains(x as usize) && low_at(adjacency, st0.push(p), st0.len() + 1int, x as usize)),
        forall|x: usize|
            #[trigger] nodes.contains(x) && !st0.push(p).contains(x) && low_at(adjacency, st0.push(p), st0.len() + 1int, x) ==> 0
                <= since1[x as int] <= st0.len() + 1,
    ensures
        since_ok(adjacency, nodes, st0.push(p), sp1, since1),
{
    let st1 = st0.push(p);
    let n = st0.len() as int;
    assert forall|t: int| 0 <= t <= n implies #[trigger] st1.take(t) == st0.take(t) by {
        assert(st1.take(t) =~= st0.take(t));
    }
    assert(st1.take(n + 1) =~= st1);
    assert forall|x: usize, t: int|
        nodes.contains(x) && 0 <= t <= n + 1 && !st1.take(t).contains(x) && #[trigger] low_at(adjacency, st1, t, x) implies 0
        <= since1[x as int] <= t by {
        if t <= n {
            assert(st1.take(t) == st0.take(t));
            assert(low_at(adjacency, st0, t, x));
            assert(0 <= since0[x as int] <= t);
        }
    }
    assert forall|x: usize| #[trigger] nodes.contains(x) && 0 <= since1[x as int] implies since1[x as int] <= n + 1 && low_at(
        adjacency,
        st1,
        since1[x as int],
        x,
    ) by {
        if since1[x as int] == since0[x as int] {
            assert(since0[x as int] <= n && low_at(adjacency, st0, since0[x as int], x));
            assert(st1.take(since0[x as int]) == st0.take(since0[x as int]));
        }
    }
    assert forall|j: int| 0 <= j < n + 1 && !sp1[#[trigger] st1[j] as int] implies 0 <= since1[st1[j] as int] <= j by {
        if j < n {
            assert(st1[j] == st0[j]);
            assert(st0[j] != p) by {
                assert(st0.contains(st0[j]));
            }
            assert(nodes.contains(st0[j]));
            assert(!sp0[st0[j] as int]);
            assert(0 <= since0[st0[j] as int] <= j);
            assert(since1[st0[j] as int] == since0[st0[j] as int]);
        } else {
            assert(st1[j] == p);
            assert(q0.contains(p));
            let k = choose|k: int| 0 <= k < q0.len() && q0[k] == p;
            assert(0 <= since0[q0[k] as int] <= n);
            assert(since1[p as int] == since0[p as int]);
        }
    }
    assert forall|j: int, x: usize|
        0 <= j < n + 1 && !sp1[#[trigger] st1[j] as int] && #[trigger] nodes.contains(x) && !st1.take(j + 1).contains(x) && 0
            <= since1[x as int] <= j implies since1[x as int] >= since1[st1[j] as int] by {
        assert(since1[x as int] == since0[x as int]);
        if j < n {
            assert(st1[j] == st0[j]);
            assert(st0[j] != p) by {
                assert(st0.contains(st0[j]));
            }
            assert(nodes.contains(st0[j]));
            assert(!sp0[st0[j] as int]);
            assert(st1.take(j + 1) == st0.take(j + 1));
            assert(0 <= since0[st0[j] as int] <= j);
            assert(since0[x as int] >= since0[st0[j] as int]);
            assert(since1[st0[j] as int] == since0[st0[j] as int]);
        } else {
            assert(st1[j] == p);
            lemma_push_contains(st0, p, x);
            assert(!st0.contains(x));
            assert(q0.contains(x));
            assert(!removed0[x as int]);
            let k = choose|k: int| 0 <= k < q0.len() && q0[k] == p;
            assert(0 <= since0[q0[k] as int] <= n);
            assert(since1[p as int] == since0[p as int]);
        }
    }
}

proof fn lemma_since_fifo(adjacency: Seq<Vec<usize>>, nodes: Seq<usize>, order: Seq<usize>, spills: Seq<bool>, since: Seq<int>)
    requires
        since_ok(adjacency, nodes, order, spills, since),
        order.no_duplicates(),
        forall|k: int| 0 <= k < order.len() ==> nodes.contains(#[trigger] order[k]),
    ensures
        simplify_fifo(adjacency, order, spills),
{
    assert forall|i: int, j: int, t: int|
        0 <= t <= i < order.len() && t <= j < order.len() && low_at(adjacency, order, t, order[i]) && !low_at(adjacency, order, t, order[j])
            && !spills[order[j] as int] implies i < j by {
        if j < i {
            let x = order[i];
            assert(nodes.contains(x));
            let ot = order.take(t);
            assert(!ot.contains(x)) by {
                if ot.contains(x) {
                    let k = choose|k: int| 0 <= k < ot.len() && ot[k] == x;
                    assert(order[k] == order[i]);
                }
            }
            assert(0 <= since[x as int] <= t);
            let y = order[j];
            assert(nodes.contains(y));
            assert(0 <= since[y as int] <= j);
            if since[y as int] <= t {
                assert(low_at(adjacency, order, since[y as int], y));
                lemma_low_at_later(adjacency, order, since[y as int], t, y);
            }
            let oj = order.take(j + 1);
            assert(!oj.contains(x)) by {
                if oj.contains(x) {
                    let k = choose|k: int| 0 <= k < oj.len() && oj[k] == x;
                    assert(order[k] == order[i]);
                }
            }
            assert(since[x as int] >= since[y as int]);
        }
    }
}

/// One more removal keeps `simplify_order`.
proof fn lemma_simplify_order_push(
    adjacency: Seq<Vec<usize>>,
    nodes: Seq<usize>,
    order: Seq<usize>,
    s0: Seq<bool>,
    s1: Seq<bool>,
    p: usize,
    removed: Seq<bool>,
    degree: Seq<usize>,
)
    requires
        simplify_order(adjacency, nodes, order, s0),
        !order.contains(p),
        nodes.contains(p),
        (p as int) < s0.len(),
        forall|k: int| 0 <= k < order.len() ==> (#[trigger] order[k] as int) < s0.len(),
        s0.len() == removed.len(),
        degree.len() == removed.len(),
        forall|x: int| 0 <= x < removed.len() ==> (#[trigger] removed[x] <==> order.contains(x as usize)),
        forall|x: usize| (x as int) < removed.len() && !removed[x as int] ==> #[trigger] degree[x as int] == remaining_degree(adjacency, order, x),
        forall|x: usize| #[trigger] nodes.contains(x) ==> (x as int) < removed.len(),
        (degree[p as int] < NUM_COLORS && s1 == s0) || (s1 == s0.update(p as int, true) && forall|x: usize|
            #[trigger] nodes.contains(x) && !removed[x as int] ==> NUM_COLORS <= degree[x as int] <= degree[p as int]),
    ensures
        simplify_order(adjacency, nodes, order.push(p), s1),
{
    let o1 = order.push(p);
    let n = order.len() as int;
    assert(o1.take(n) =~= order);
    assert(!s0[p as int]);
    assert forall|x: int| 0 <= x < s1.len() && #[trigger] s1[x] implies o1.contains(x as usize) by {
        lemma_push_contains(order, p, x as usize);
        if x != p as int {
            assert(s0[x]);
        }
    }
    assert forall|i: int| 0 <= i < o1.len() implies (s1[o1[i] as int] <==> remaining_degree(adjacency, o1.take(i), #[trigger] o1[i])
        >= NUM_COLORS) by {
        if i < n {
            assert(o1.take(i) =~= order.take(i));
            assert(o1[i] == order[i]);
            assert(order[i] != p) by {
                assert(order.contains(order[i]));
            }
            assert((order[i] as int) < s0.len());
            assert(s1[o1[i] as int] == s0[order[i] as int]);
        } else {
            assert(o1[i] == p);
            assert(o1.take(i) =~= order);
            assert(!removed[p as int]);
        }
    }
    assert forall|i: int, x: usize|
        0 <= i < o1.len() && s1[o1[i] as int] && nodes.contains(x) && !o1.take(i).contains(x) implies NUM_COLORS
        <= #[trigger] remaining_degree(adjacency, o1.take(i), x) <= remaining_degree(adjacency, o1.take(i), o1[i]) by {
        if i < n {
            assert(o1.take(i) =~= order.take(i));
            assert(o1[i] == order[i]);
            assert(order[i] != p) by {
                assert(order.contains(order[i]));
            }
            assert(s0[order[i] as int]);
        } else {
            assert(!removed[x as int]);
        }
    }
}

proof fn lemma_missing_element(s: Seq<usize>, t: Seq<usize>)
    requires
        s.no_duplicates(),
        t.no_duplicates(),
        s.to_set().subset_of(t.to_set()),
        s.len() < t.len(),
    ensures
        exists|k: int| 0 <= k < t.len() && !s.contains(#[trigger] t[k]),
{
    if forall|k: int| 0 <= k < t.len() ==> s.contains(#[trigger] t[k]) {
        assert(t.to_set().subset_of(s.to_set())) by {
            assert forall|x: usize| t.to_set().contains(x) implies s.to_set().contains(x) by {
                let k = choose|k: int| 0 <= k < t.len() && t[k] == x;
            }
        }
        s.unique_seq_to_set();
        t.unique_seq_to_set();
        vstd::set_lib::lemma_len_subset(t.to_set(), s.to_set());
    }
}

proof fn lemma_same_set(s: Seq<usize>, t: Seq<usize>)
    requires
        s.no_duplicates(),
        t.no_duplicates(),
        s.to_set().subset_of(t.to_set()),
        s.len() == t.len(),
    ensures
        s.to_set() == t.to_set(),
{
    s.unique_seq_to_set();
    t.unique_seq_to_set();
    vstd::set_lib::lemma_subset_equality(s.to_set(), t.to_set());
}

/// The key by which spilled registers are ordered: potential spills first,
/// then by register number.
pub open spec fn spill_key(potential: Seq<bool>, v: usize) -> int {
    if potential[v as int] {
        v as int
    } else {
        v as int + 0x1_0000_0000_0000_0000
    }
}

/// Sorts `spilled` by `spill_key`.
fn sort_spills(spilled: &mut Vec<usize>, potential: &Vec<bool>)
    requires
        old(spilled)@.no_duplicates(),
        forall|k: int| 0 <= k < old(spilled)@.len() ==> #[trigger] old(spilled)@[k] < potential@.len(),
    ensures
        final(spilled)@.no_duplicates(),
        final(spilled)@.to_set() == old(spilled)@.to_set(),
        final(spilled)@.len() == old(spilled)@.len(),
        forall|i: int, j: int|
            0 <= i < j < final(spilled)@.len() ==> spill_key(potential@, #[trigger] final(spilled)@[i])
                < spill_key(potential@, #[trigger] final(spilled)@[j]),
{
    let ghost input = spilled@;
    let mut result: Vec<usize> = Vec::new();
    let mut k: usize = 0;
    assert(input.take(0).to_set() =~= Set::<usize>::empty());
    while k < spilled.len()
        invariant
            spilled@ == input,
            input.no_duplicates(),
            forall|k: int| 0 <= k < input.len() ==> #[trigger] input[k] < potential@.len(),
            k <= input.len(),
            result@.len() == k,
            result@.no_duplicates(),
            result@.to_set() == input.take(k as int).to_set(),
            forall|t: int| 0 <= t < result@.len() ==> #[trigger] result@[t] < potential@.len(),
            forall|i: int, j: int|
                0 <= i < j < result@.len() ==> spill_key(potential@, #[trigger] result@[i]) < spill_key(
                    potential@,
                    #[trigger] result@[j],
                ),
        decreases input.len() - k,
    {
        let x = spilled[k];
        let kx: bool = potential[x];
        let mut pos: usize = 0;
        let mut done = false;
        while pos < result.len() && !done
            invariant
                pos <= result@.len(),
                x < potential@.len(),
                kx == potential@[x as int],
                done ==> pos < result@.len() && spill_key(potential@, x) < spill_key(
                    potential@,
                    result@[pos as int],
                ),
                forall|t: int| 0 <= t < result@.len() ==> #[trigger] result@[t] < potential@.len(),
                forall|t: int| 0 <= t < pos ==> spill_key(potential@, #[trigger] result@[t]) <= spill_key(
                    potential@,
                    x,
                ),
            decreases result@.len() - pos + (if done { 0int } else { 1int }),
        {
            let y = result[pos];
            let ky: bool = potential[y];
            let x_first = if kx != ky {
                kx
            } else {
                x < y
            };
            if x_first {
                done = true;
            } else {
                pos += 1;
            }
        }
        proof {
            // x is not in result yet
            assert(!input.take(k as int).contains(x)) by {
                if input.take(k as int).contains(x) {
                    let t = choose|t: int| 0 <= t < k && input.take(k as int)[t] == x;
                    assert(input[t] == input[k as int]);
                }
            }
            assert(!result@.contains(x)) by {
                if result@.contains(x) {
                    let t = choose|t: int| 0 <= t < result@.len() && result@[t] == x;
                    assert(result@.to_set().contains(x));
                }
            }
        }
        let ghost pre = result@;
        result.insert(pos, x);
        proof {
            assert(input.take(k + 1) == input.take(k as int).push(x));
            crate::common::graph::lemma_push_to_set(input.take(k as int), x);
            assert(result@ == pre.insert(pos as int, x));
            assert forall|t: int| 0 <= t < result@.len() implies #[trigger] result@[t] < potential@.len() by {
                if t < pos { assert(result@[t] == pre[t]); } else if t > pos { assert(result@[t] == pre[t - 1]); }
            }
            assert(result@.to_set() =~= pre.to_set().insert(x)) by {
                assert forall|y: usize| result@.to_set().contains(y) <==> pre.to_set().insert(x).contains(y) by {
                    if result@.contains(y) {
                        let t = choose|t: int| 0 <= t < result@.len() && result@[t] == y;
                        if t < pos { assert(pre[t] == y); } else if t > pos { assert(pre[t - 1] == y); }
                    }
                    if pre.contains(y) {
                        let t = choose|t: int| 0 <= t < pre.len() && pre[t] == y;
                        if t < pos { assert(result@[t] == y); } else { assert(result@[t + 1] == y); }
                    }
                    if y == x {
                        assert(result@[pos as int] == x);
                    }
                }
            }
            assert forall|i: int, j: int| 0 <= i < j < result@.len() implies result@[i] != result@[j] by {
                if i < pos && j < pos {
                    assert(result@[i] == pre[i] && result@[j] == pre[j]);
                } else if i > pos && j > pos {
                    assert(result@[i] == pre[i - 1] && result@[j] == pre[j - 1]);
                } else if i < pos && j > pos {
                    assert(result@[i] == pre[i] && result@[j] == pre[j - 1]);
                } else if i == pos {
                    assert(result@[j] == pre[j - 1]);
                    assert(pre.contains(pre[j - 1]));
                } else {
                    assert(result@[i] == pre[i]);
                    assert(pre.contains(pre[i]));
                }
            }
            if pos < pre.len() {
                // x sorts before pre[pos]
                assert(done);
                assert(spill_key(potential@, x) < spill_key(potential@, pre[pos as int]));
            }
            assert forall|i: int, j: int|
                0 <= i < j < result@.len() implies spill_key(potential@, #[trigger] result@[i]) < spill_key(
                potential@,
                #[trigger] result@[j],
            ) by {
                if i < pos && j < pos {
                    assert(result@[i] == pre[i] && result@[j] == pre[j]);
                } else if i > pos && j > pos {
                    assert(result@[i] == pre[i - 1] && result@[j] == pre[j - 1]);
                } else if i < pos && j > pos {
                    assert(result@[i] == pre[i] && result@[j] == pre[j - 1]);
                    assert(spill_key(potential@, pre[i]) <= spill_key(potential@, x));
                    assert(spill_key(potential@, x) < spill_key(potential@, pre[pos as int]));
                    if j - 1 > pos {
                        assert(spill_key(potential@, pre[pos as int]) < spill_key(potential@, pre[j - 1]));
                    }
                } else if i == pos {
                    assert(result@[j] == pre[j - 1]);
                    if j - 1 > pos {
                        assert(spill_key(potential@, pre[pos as int]) < spill_key(potential@, pre[j - 1]));
                    }
                } else {
                    assert(result@[i] == pre[i]);
                    assert(spill_key(potential@, pre[i]) <= spill_key(potential@, x));
                    assert(pre[i] != x);
                }
            }
        }
        k += 1;
    }
    assert(input.take(input.len() as int) =~= input);
    *spilled = result;
}

impl InterferenceGraph {
    /// The queue of low-degree nodes: it holds no node twice, `in_low` marks
    /// exactly its nodes, each of which has degree below `NUM_COLORS`, and it
    /// holds every node not yet removed, other than `except`, whose degree is
    /// below that.
    spec fn queue_ok(&self, q: Seq<usize>, in_low: Seq<bool>, removed: Seq<bool>, degree: Seq<usize>, except: int) -> bool {
        &&& q.no_duplicates()
        &&& forall|x: usize| (x as int) < in_low.len() ==> (#[trigger] in_low[x as int] <==> q.contains(x))
        &&& forall|k: int| 0 <= k < q.len() ==> #[trigger] degree[q[k] as int] < NUM_COLORS
        &&& forall|x: usize|
            #[trigger] self.nodes@.contains(x) && !removed[x as int] && degree[x as int] < NUM_COLORS && x as int != except
                ==> q.contains(x)
    }

    /// The number of neighbours of `v`.
    fn degree(&self, v: usize) -> (r: usize)
        requires
            v < self.adjacency@.len(),
        ensures
            r == self.adjacency@[v as int]@.len(),
    {
        self.adjacency[v].len()
    }

    /// The next node to remove: a low-degree node from the queue if one is
    /// left, else the remaining node of largest degree, which is marked as a
    /// potential spill.
    fn pick_node(
        &self,
        low_degree: &mut std::collections::VecDeque<usize>,
        in_low: &mut Vec<bool>,
        removed: &Vec<bool>,
        degree: &Vec<usize>,
        potential_spills: &mut Vec<bool>,
        Ghost(since): Ghost<Seq<int>>,
    ) -> (r: usize)
        requires
            self.wf(),
            old(in_low)@.len() == self.adjacency@.len(),
            removed@.len() == self.adjacency@.len(),
            degree@.len() == self.adjacency@.len(),
            old(potential_spills)@.len() == self.adjacency@.len(),
            forall|k: int| 0 <= k < old(low_degree)@.len() ==> #[trigger] old(low_degree)@[k] < self.adjacency@.len(),
            forall|k: int| 0 <= k < old(low_degree)@.len() ==> self.nodes@.contains(#[trigger] old(low_degree)@[k]),
            exists|k: int| 0 <= k < self.nodes@.len() && !removed@[#[trigger] self.nodes@[k] as int],
            self.queue_ok(old(low_degree)@, old(in_low)@, removed@, degree@, -1),
            sorted_by(old(low_degree)@, since),
        ensures
            final(low_degree)@.len() <= old(low_degree)@.len(),
            final(low_degree)@ == old(low_degree)@.skip(old(low_degree)@.len() - final(low_degree)@.len()),
            degree@[r as int] < NUM_COLORS ==> old(low_degree)@.contains(r) && forall|x: usize|
                #[trigger] old(low_degree)@.contains(x) && !removed@[x as int] ==> since[x as int] >= since[r as int],
            self.nodes@.contains(r),
            !removed@[r as int],
            self.queue_ok(final(low_degree)@, final(in_low)@, removed@, degree@, r as int),
            (degree@[r as int] < NUM_COLORS && final(potential_spills)@ == old(potential_spills)@) || (final(potential_spills)@
                == old(potential_spills)@.update(r as int, true) && forall|x: usize|
                #[trigger] self.nodes@.contains(x) && !removed@[x as int] ==> NUM_COLORS <= degree@[x as int] <= degree@[r as int]),
            final(in_low)@.len() == self.adjacency@.len(),
            final(potential_spills)@.len() == self.adjacency@.len(),
            forall|k: int| 0 <= k < final(low_degree)@.len() ==> #[trigger] final(low_degree)@[k] < self.adjacency@.len(),
            forall|k: int| 0 <= k < final(low_degree)@.len() ==> self.nodes@.contains(#[trigger] final(low_degree)@[k]),
    {
        while low_degree.len() > 0
            invariant
                self.wf(),
                in_low@.len() == self.adjacency@.len(),
                potential_spills@.len() == self.adjacency@.len(),
                removed@.len() == self.adjacency@.len(),
                forall|k: int| 0 <= k < low_degree@.len() ==> #[trigger] low_degree@[k] < self.adjacency@.len(),
                forall|k: int| 0 <= k < low_degree@.len() ==> self.nodes@.contains(#[trigger] low_degree@[k]),
                self.queue_ok(low_degree@, in_low@, removed@, degree@, -1),
                potential_spills@ == old(potential_spills)@,
                sorted_by(low_degree@, since),
                low_degree@.len() <= old(low_degree)@.len(),
                low_degree@ == old(low_degree)@.skip(old(low_degree)@.len() - low_degree@.len()),
                forall|x: usize| #[trigger] old(low_degree)@.contains(x) && !low_degree@.contains(x) ==> removed@[x as int],
            decreases low_degree@.len(),
        {
            let ghost pre = low_degree@;
            let ghost il = in_low@;
            let v = low_degree.pop_front().unwrap();
            proof {
                assert(pre[0] == v);
                assert(self.nodes@.contains(pre[0]));
                assert(low_degree@ =~= pre.drop_first());
                assert forall|k: int| 0 <= k < low_degree@.len() implies #[trigger] low_degree@[k] < self.adjacency@.len()
                    && self.nodes@.contains(low_degree@[k]) by {
                    assert(low_degree@[k] == pre[k + 1]);
                }
            }
            in_low.set(v, false);
            proof {
                let q = low_degree@;
                assert(q.no_duplicates()) by {
                    assert forall|i: int, j: int| 0 <= i < j < q.len() implies q[i] != q[j] by {
                        assert(q[i] == pre[i + 1] && q[j] == pre[j + 1]);
                    }
                }
                assert forall|x: usize| (x as int) < in_low@.len() implies (#[trigger] in_low@[x as int] <==> q.contains(x)) by {
                    if q.contains(x) {
                        let k = choose|k: int| 0 <= k < q.len() && q[k] == x;
                        assert(pre[k + 1] == x);
                        assert(pre.contains(x));
                        if x == v {
                            assert(pre[0] == pre[k + 1]);
                        }
                    }
                    if x != v && il[x as int] {
                        assert(pre.contains(x));
                        let k = choose|k: int| 0 <= k < pre.len() && pre[k] == x;
                        if k == 0 {
                            assert(pre[0] == v);
                        }
                        assert(q[k - 1] == x);
                    }
                }
                assert forall|k: int| 0 <= k < q.len() implies #[trigger] degree@[q[k] as int] < NUM_COLORS by {
                    assert(q[k] == pre[k + 1]);
                }
                assert forall|x: usize|
                    #[trigger] self.nodes@.contains(x) && !removed@[x as int] && degree@[x as int] < NUM_COLORS && x as int != (if removed@[v as int] { -1int } else { v as int })
                        implies q.contains(x) by {
                    assert(pre.contains(x));
                    let k = choose|k: int| 0 <= k < pre.len() && pre[k] == x;
                    if k == 0 {
                        assert(x == v);
                    } else {
                        assert(q[k - 1] == x);
                    }
                }
            }
            proof {
                let oq = old(low_degree)@;
                assert(low_degree@ =~= oq.skip(oq.len() - low_degree@.len()));
                assert forall|a: int, b: int| 0 <= a < b < low_degree@.len() implies since[#[trigger] low_degree@[a] as int]
                    <= since[#[trigger] low_degree@[b] as int] by {
                    assert(low_degree@[a] == pre[a + 1] && low_degree@[b] == pre[b + 1]);
                }
                assert forall|x: usize| #[trigger] oq.contains(x) && !low_degree@.contains(x) implies removed@[x as int] || x == v by {
                    if pre.contains(x) {
                        let k = choose|k: int| 0 <= k < pre.len() && pre[k] == x;
                        if k > 0 {
                            assert(low_degree@[k - 1] == x);
                        }
                    }
                }
                if !removed@[v as int] {
                    assert(oq.contains(v)) by {
                        assert(pre[0] == v);
                        assert(pre == oq.skip(oq.len() - pre.len()));
                        assert(oq[oq.len() - pre.len()] == v);
                    }
                    assert forall|x: usize| #[trigger] oq.contains(x) && !removed@[x as int] implies since[x as int] >= since[v as int] by {
                        if x != v {
                            assert(low_degree@.contains(x));
                            let k = choose|k: int| 0 <= k < low_degree@.len() && low_degree@[k] == x;
                            assert(pre[k + 1] == x);
                            assert(pre[0] == v);
                        }
                    }
                }
            }
            if !removed[v] {
                return v;
            }
        }
        let ghost witness = choose|k: int| 0 <= k < self.nodes@.len() && !removed@[#[trigger] self.nodes@[k] as int];
        let mut best: usize = 0;
        let mut found = false;
        let mut k: usize = 0;
        while k < self.nodes.len()
            invariant
                self.wf(),
                removed@.len() == self.adjacency@.len(),
                degree@.len() == self.adjacency@.len(),
                0 <= witness < self.nodes@.len(),
                !removed@[self.nodes@[witness] as int],
                k <= self.nodes@.len(),
                found ==> self.nodes@.contains(best) && !removed@[best as int],
                found ==> forall|j: int| 0 <= j < k && !removed@[self.nodes@[j] as int] ==> degree@[#[trigger] self.nodes@[j] as int] <= degree@[best as int],
                k > witness ==> found,
                !found ==> forall|j: int| 0 <= j < k ==> removed@[#[trigger] self.nodes@[j] as int],
            decreases self.nodes@.len() - k,
        {
            let v = self.nodes[k];
            assert(self.nodes@[k as int] < self.adjacency@.len());
            assert(self.nodes@.contains(v));
            let ghost best0 = best;
            let ghost found0 = found;
            if !removed[v] {
                if !found || degree[v] >= degree[best] {
                    best = v;
                    found = true;
                }
            }
            proof {
                if found {
                    assert forall|j: int| 0 <= j < k + 1 && !removed@[self.nodes@[j] as int] implies degree@[#[trigger] self.nodes@[j] as int]
                        <= degree@[best as int] by {
                        if j < k && found0 {
                            assert(degree@[self.nodes@[j] as int] <= degree@[best0 as int]);
                        }
                    }
                }
            }
            k += 1;
        }
        assert(found);
        proof {
            assert forall|x: usize| #[trigger] self.nodes@.contains(x) && !removed@[x as int] implies NUM_COLORS <= degree@[x as int] <= degree@[best as int] by {
                let j = choose|j: int| 0 <= j < self.nodes@.len() && self.nodes@[j] == x;
                if degree@[x as int] < NUM_COLORS {
                    assert(low_degree@.contains(x));
                }
            }
            assert forall|x: usize| (x as int) < in_low@.len() implies (#[trigger] in_low@[x as int] <==> low_degree@.contains(x)) by {
            }
        }
        potential_spills.set(best, true);
        best
    }

    /// Removes the nodes one by one: while some node left has fewer than
    /// `NUM_COLORS` neighbours left, such a node, taken in the order in
    /// which they came below that; else the node left with the most
    /// neighbours left, which is marked as a potential spill.  Returns the
    /// removal order and the marks.
    fn simplify(&self) -> (r: (Vec<usize>, Vec<bool>))
        requires
            self.wf(),
        ensures
            r.0@.no_duplicates(),
            r.0@.to_set() == self.nodes@.to_set(),
            r.1@.len() == self.adjacency@.len(),
            simplify_order(self.adjacency@, self.nodes@, r.0@, r.1@),
            simplify_fifo(self.adjacency@, r.0@, r.1@),
    {
        let m = self.adjacency.len();
        let mut degree: Vec<usize> = Vec::new();
        let mut in_low: Vec<bool> = Vec::new();
        let mut removed: Vec<bool> = Vec::new();
        let mut potential_spills: Vec<bool> = Vec::new();
        let mut v: usize = 0;
        while v < m
            invariant
                v <= m,
                m == self.adjacency@.len(),
                degree@.len() == v,
                in_low@.len() == v,
                removed@.len() == v,
                potential_spills@.len() == v,
                forall|x: int| 0 <= x < v ==> !(#[trigger] removed@[x]),
                forall|x: int| 0 <= x < v ==> !(#[trigger] in_low@[x]),
                forall|x: int| 0 <= x < v ==> !(#[trigger] potential_spills@[x]),
                forall|x: int| 0 <= x < v ==> #[trigger] degree@[x] == self.adjacency@[x]@.len(),
            decreases m - v,
        {
            degree.push(self.degree(v));
            in_low.push(false);
            removed.push(false);
            potential_spills.push(false);
            v += 1;
        }
        let mut low_degree: std::collections::VecDeque<usize> = std::collections::VecDeque::new();
        let ghost mut since: Seq<int> = Seq::new(m as nat, |x: int| -1int);
        let mut k: usize = 0;
        while k < self.nodes.len()
            invariant
                since.len() == m,
                forall|x: usize| (x as int) < m ==> #[trigger] since[x as int] == (if low_degree@.contains(x) { 0int } else { -1int }),
                self.wf(),
                m == self.adjacency@.len(),
                degree@.len() == m,
                in_low@.len() == m,
                removed@.len() == m,
                forall|x: int| 0 <= x < m ==> !(#[trigger] removed@[x]),
                k <= self.nodes@.len(),
                forall|t: int| 0 <= t < low_degree@.len() ==> #[trigger] low_degree@[t] < m,
                forall|t: int| 0 <= t < low_degree@.len() ==> self.nodes@.contains(#[trigger] low_degree@[t]),
                low_degree@.no_duplicates(),
                forall|x: usize| (x as int) < in_low@.len() ==> (#[trigger] in_low@[x as int] <==> low_degree@.contains(x)),
                forall|t: int| 0 <= t < low_degree@.len() ==> #[trigger] degree@[low_degree@[t] as int] < NUM_COLORS,
                forall|t: int| 0 <= t < low_degree@.len() ==> exists|j: int| 0 <= j < k && self.nodes@[j] == #[trigger] low_degree@[t],
                forall|j: int| 0 <= j < k && degree@[self.nodes@[j] as int] < NUM_COLORS ==> low_degree@.contains(#[trigger] self.nodes@[j]),
            decreases self.nodes@.len() - k,
        {
            let v = self.nodes[k];
            if degree[v] < NUM_COLORS {
                let ghost pre = low_degree@;
                proof {
                    assert(!pre.contains(v)) by {
                        if pre.contains(v) {
                            let t = choose|t: int| 0 <= t < pre.len() && pre[t] == v;
                            let j = choose|j: int| 0 <= j < k && self.nodes@[j] == pre[t];
                            assert(self.nodes@[j] == self.nodes@[k as int]);
                        }
                    }
                }
                low_degree.push_back(v);
                in_low.set(v, true);
                proof {
                    since = since.update(v as int, 0);
                    assert(low_degree@ == pre.push(v));
                    assert forall|x: usize| (x as int) < m implies #[trigger] since[x as int] == (if low_degree@.contains(x) { 0int } else { -1int }) by {
                        lemma_push_contains(pre, v, x);
                    }
                    assert forall|t: int| 0 <= t < low_degree@.len() implies #[trigger] low_degree@[t] < m
                        && self.nodes@.contains(low_degree@[t]) && degree@[low_degree@[t] as int] < NUM_COLORS && exists|j: int|
                        0 <= j < k + 1 && self.nodes@[j] == low_degree@[t] by {
                        if t < pre.len() { assert(low_degree@[t] == pre[t]); } else { assert(low_degree@[t] == v); assert(self.nodes@[k as int] == v); }
                    }
                    assert forall|x: usize| (x as int) < in_low@.len() implies (#[trigger] in_low@[x as int] <==> low_degree@.contains(x)) by {
                        lemma_push_contains(pre, v, x);
                    }
                    assert(low_degree@.no_duplicates()) by {
                        assert forall|i: int, j: int| 0 <= i < j < low_degree@.len() implies low_degree@[i] != low_degree@[j] by {
                            if j == pre.len() {
                                assert(pre.contains(low_degree@[i]));
                            }
                        }
                    }
                    assert forall|j: int| 0 <= j < k + 1 && degree@[self.nodes@[j] as int] < NUM_COLORS implies low_degree@.contains(#[trigger] self.nodes@[j]) by {
                        lemma_push_contains(pre, v, self.nodes@[j]);
                    }
                }
            } else {
                proof {
                    assert forall|t: int| 0 <= t < low_degree@.len() implies exists|j: int| 0 <= j < k + 1 && self.nodes@[j] == #[trigger] low_degree@[t] by {
                        let j = choose|j: int| 0 <= j < k && self.nodes@[j] == low_degree@[t];
                    }
                }
            }
            k += 1;
        }
        let mut stack: Vec<usize> = Vec::new();
        proof {
            assert forall|x: usize| #[trigger] self.nodes@.contains(x) && !removed@[x as int] && degree@[x as int] < NUM_COLORS && x as int != -1
                implies low_degree@.contains(x) by {
                let j = choose|j: int| 0 <= j < self.nodes@.len() && self.nodes@[j] == x;
            }
            assert forall|x: usize| (x as int) < m && !removed@[x as int] implies #[trigger] degree@[x as int] == remaining_degree(
                self.adjacency@,
                stack@,
                x,
            ) by {
                lemma_count_outside_none(self.adjacency@[x as int]@);
            }
            assert(stack@.take(0) =~= stack@);
            assert forall|x: usize, t: int|
                self.nodes@.contains(x) && 0 <= t <= 0 && !stack@.take(t).contains(x) && #[trigger] low_at(self.adjacency@, stack@, t, x)
                    implies 0 <= since[x as int] <= t by {
                let j = choose|j: int| 0 <= j < self.nodes@.len() && self.nodes@[j] == x;
                lemma_count_outside_none(self.adjacency@[x as int]@);
                assert(low_degree@.contains(x));
            }
            assert forall|x: usize| #[trigger] self.nodes@.contains(x) && 0 <= since[x as int] implies since[x as int] <= 0 && low_at(
                self.adjacency@,
                stack@,
                since[x as int],
                x,
            ) by {
                let j = choose|j: int| 0 <= j < self.nodes@.len() && self.nodes@[j] == x;
                lemma_count_outside_none(self.adjacency@[x as int]@);
                assert(low_degree@.contains(x));
                let t = choose|t: int| 0 <= t < low_degree@.len() && low_degree@[t] == x;
                assert(degree@[low_degree@[t] as int] < NUM_COLORS);
            }
            assert(since_ok(self.adjacency@, self.nodes@, stack@, potential_spills@, since));
            assert forall|a: int, b: int| 0 <= a < b < low_degree@.len() implies since[#[trigger] low_degree@[a] as int]
                <= since[#[trigger] low_degree@[b] as int] by {
                assert(low_degree@.contains(low_degree@[a]));
                assert(low_degree@.contains(low_degree@[b]));
            }
            assert forall|t: int| 0 <= t < low_degree@.len() implies 0 <= #[trigger] since[low_degree@[t] as int] <= stack@.len() by {
                assert(low_degree@.contains(low_degree@[t]));
            }
        }
        while stack.len() < self.nodes.len()
            invariant
                self.wf(),
                m == self.adjacency@.len(),
                degree@.len() == m,
                in_low@.len() == m,
                removed@.len() == m,
                potential_spills@.len() == m,
                forall|t: int| 0 <= t < low_degree@.len() ==> #[trigger] low_degree@[t] < m,
                forall|t: int| 0 <= t < low_degree@.len() ==> self.nodes@.contains(#[trigger] low_degree@[t]),
                self.queue_ok(low_degree@, in_low@, removed@, degree@, -1),
                forall|x: usize| (x as int) < m && !removed@[x as int] ==> #[trigger] degree@[x as int] == remaining_degree(
                    self.adjacency@,
                    stack@,
                    x,
                ),
                stack@.no_duplicates(),
                stack@.len() <= self.nodes@.len(),
                stack@.to_set().subset_of(self.nodes@.to_set()),
                forall|x: int| 0 <= x < m ==> (#[trigger] removed@[x] <==> stack@.contains(x as usize)),
                simplify_order(self.adjacency@, self.nodes@, stack@, potential_spills@),
                since.len() == m,
                forall|x: int| 0 <= x < m ==> #[trigger] since[x] >= -1,
                sorted_by(low_degree@, since),
                forall|t: int| 0 <= t < low_degree@.len() ==> 0 <= #[trigger] since[low_degree@[t] as int] <= stack@.len(),
                forall|x: usize| (x as int) < m && #[trigger] self.nodes@.contains(x) && !removed@[x as int] && since[x as int] >= 0 ==> degree@[x as int] < NUM_COLORS,
                since_ok(self.adjacency@, self.nodes@, stack@, potential_spills@, since),
            decreases self.nodes@.len() - stack@.len(),
        {
            proof {
                lemma_missing_element(stack@, self.nodes@);
                let w = choose|k: int| 0 <= k < self.nodes@.len() && !stack@.contains(#[trigger] self.nodes@[k]);
                assert(self.nodes@[w] < m);
                assert(!removed@[self.nodes@[w] as int]);
            }
            let ghost ps0 = potential_spills@;
            let ghost since0 = since;
            let ghost q0 = low_degree@;
            let ghost removed0 = removed@;
            proof {
                assert forall|x: usize| #[trigger] self.nodes@.contains(x) && !stack@.contains(x) && since0[x as int] >= 0 implies q0.contains(x) by {
                    let j = choose|j: int| 0 <= j < self.nodes@.len() && self.nodes@[j] == x;
                    assert((x as int) < m);
                    assert(!removed@[x as int]);
                }
            }
            let pick = self.pick_node(&mut low_degree, &mut in_low, &removed, &degree, &mut potential_spills, Ghost(since));
            assert(self.nodes@.to_set().contains(pick));
            let ghost pre_stack = stack@;
            proof {
                assert(!pre_stack.contains(pick));
                assert forall|k: int| 0 <= k < pre_stack.len() implies (#[trigger] pre_stack[k] as int) < potential_spills@.len() by {
                    assert(pre_stack.to_set().contains(pre_stack[k]));
                    assert(self.nodes@.to_set().contains(pre_stack[k]));
                }
                assert forall|x: usize| #[trigger] self.nodes@.contains(x) implies (x as int) < removed@.len() by {
                    let j = choose|j: int| 0 <= j < self.nodes@.len() && self.nodes@[j] == x;
                }
                assert(degree@[pick as int] == remaining_degree(self.adjacency@, pre_stack, pick));
                lemma_simplify_order_push(self.adjacency@, self.nodes@, pre_stack, ps0, potential_spills@, pick, removed@, degree@);
            }
            removed.set(pick, true);
            stack.push(pick);
            proof {
                crate::common::graph::lemma_push_to_set(pre_stack, pick);
                assert forall|x: int| 0 <= x < m implies (#[trigger] removed@[x] <==> stack@.contains(x as usize)) by {
                    lemma_push_contains(pre_stack, pick, x as usize);
                }
                assert forall|i: int, j: int| 0 <= i < j < stack@.len() implies stack@[i] != stack@[j] by {
                    if j == stack@.len() - 1 {
                        assert(pre_stack.contains(stack@[i]));
                    }
                }
                assert(self.queue_ok(low_degree@, in_low@, removed@, degree@, -1));
            }
            let nbrs = &self.adjacency[pick];
            let mut t: usize = 0;
            proof {
                assert(nbrs@.take(0) =~= Seq::<usize>::empty());
            }
            while t < nbrs.len()
                invariant
                    self.wf(),
                    m == self.adjacency@.len(),
                    pick < m,
                    nbrs@ == self.adjacency@[pick as int]@,
                    degree@.len() == m,
                    in_low@.len() == m,
                    removed@.len() == m,
                    removed@[pick as int],
                    !pre_stack.contains(pick),
                    t <= nbrs@.len(),
                    since.len() == m,
                    forall|x: int| 0 <= x < m ==> #[trigger] since[x] >= -1,
                    sorted_by(low_degree@, since),
                    forall|t: int| 0 <= t < low_degree@.len() ==> 0 <= #[trigger] since[low_degree@[t] as int] <= pre_stack.len() + 1,
                    forall|x: usize| (x as int) < m && #[trigger] self.nodes@.contains(x) && !removed@[x as int] && since[x as int] >= 0 ==> degree@[x as int] < NUM_COLORS,
                    forall|x: int| 0 <= x < m ==> #[trigger] since[x] == since0[x] || (since0[x] == -1 && since[x] == pre_stack.len() + 1
                        && !removed@[x] && low_degree@.contains(x as usize)),
                    forall|t: int| 0 <= t < low_degree@.len() ==> #[trigger] low_degree@[t] < m,
                    forall|t: int| 0 <= t < low_degree@.len() ==> self.nodes@.contains(#[trigger] low_degree@[t]),
                    self.queue_ok(low_degree@, in_low@, removed@, degree@, -1),
                    forall|x: usize| (x as int) < m && !removed@[x as int] ==> #[trigger] degree@[x as int] + (if nbrs@.take(
                        t as int,
                    ).contains(x) { 1int } else { 0int }) == remaining_degree(self.adjacency@, pre_stack, x),
                decreases nbrs@.len() - t,
            {
                let u = nbrs[t];
                assert(self.adjacency@[pick as int]@[t as int] < m);
                let ghost tk = nbrs@.take(t as int);
                proof {
                    assert(nbrs@.take(t + 1) == tk.push(u));
                    assert(!tk.contains(u)) by {
                        if tk.contains(u) {
                            let j = choose|j: int| 0 <= j < tk.len() && tk[j] == u;
                            assert(nbrs@[j] == nbrs@[t as int]);
                        }
                    }
                }
                if !removed[u] && degree[u] > 0 {
                    let ghost dg0 = degree@;
                    let ghost q0 = low_degree@;
                    let d = degree[u] - 1;
                    degree.set(u, d);
                    if d < NUM_COLORS && !in_low[u] {
                        proof {
                            assert(self.adjacency@[pick as int]@.contains(u));
                            assert(self.adj(pick, u));
                            assert(self.adj(u, pick));
                        }
                        assert(self.nodes@.contains(u));
                        let ghost pre = low_degree@;
                        let ghost sn = since;
                        proof {
                            assert(sn[u as int] == -1) by {
                                if sn[u as int] >= 0 {
                                    assert(dg0[u as int] < NUM_COLORS);
                                    assert(pre.contains(u));
                                }
                            }
                        }
                        low_degree.push_back(u);
                        in_low.set(u, true);
                        proof {
                            since = since.update(u as int, pre_stack.len() + 1int);
                            assert(!pre.contains(u));
                            assert forall|a: int, b: int| 0 <= a < b < low_degree@.len() implies since[#[trigger] low_degree@[a] as int]
                                <= since[#[trigger] low_degree@[b] as int] by {
                                if b == pre.len() {
                                    assert(low_degree@[a] == pre[a]);
                                    assert(pre[a] != u) by { assert(pre.contains(pre[a])); }
                                    assert(0 <= sn[pre[a] as int] <= pre_stack.len() + 1);
                                } else {
                                    assert(low_degree@[a] == pre[a] && low_degree@[b] == pre[b]);
                                    assert(pre[a] != u) by { assert(pre.contains(pre[a])); }
                                    assert(pre[b] != u) by { assert(pre.contains(pre[b])); }
                                }
                            }
                            assert forall|q: int| 0 <= q < low_degree@.len() implies 0 <= #[trigger] since[low_degree@[q] as int] <= pre_stack.len() + 1 by {
                                if q < pre.len() {
                                    assert(low_degree@[q] == pre[q]);
                                    assert(pre[q] != u) by { assert(pre.contains(pre[q])); }
                                }
                            }
                            assert forall|x: int| 0 <= x < m implies #[trigger] since[x] == since0[x] || (since0[x] == -1 && since[x] == pre_stack.len() + 1
                                && !removed@[x] && low_degree@.contains(x as usize)) by {
                                lemma_push_contains(pre, u, x as usize);
                            }
                            assert forall|q: int| 0 <= q < low_degree@.len() implies #[trigger] low_degree@[q] < m
                                && self.nodes@.contains(low_degree@[q]) && degree@[low_degree@[q] as int] < NUM_COLORS by {
                                if q < pre.len() { assert(low_degree@[q] == pre[q]); }
                            }
                            assert forall|x: usize| (x as int) < in_low@.len() implies (#[trigger] in_low@[x as int] <==> low_degree@.contains(x)) by {
                                lemma_push_contains(pre, u, x);
                            }
                            assert(low_degree@.no_duplicates()) by {
                                assert forall|i: int, j: int| 0 <= i < j < low_degree@.len() implies low_degree@[i] != low_degree@[j] by {
                                    if j == pre.len() {
                                        assert(pre.contains(low_degree@[i]));
                                    }
                                }
                            }
                            assert forall|x: usize|
                                #[trigger] self.nodes@.contains(x) && !removed@[x as int] && degree@[x as int] < NUM_COLORS && x as int != -1
                                    implies low_degree@.contains(x) by {
                                lemma_push_contains(pre, u, x);
                            }
                        }
                    } else {
                        proof {
                            assert forall|q: int| 0 <= q < low_degree@.len() implies #[trigger] degree@[low_degree@[q] as int] < NUM_COLORS by {
                                if low_degree@[q] != u {
                                    assert(degree@[low_degree@[q] as int] == dg0[low_degree@[q] as int]);
                                }
                            }
                        }
                    }
                    proof {
                        assert forall|x: usize| (x as int) < m && !removed@[x as int] implies #[trigger] degree@[x as int] + (if nbrs@.take(
                            t + 1,
                        ).contains(x) { 1int } else { 0int }) == remaining_degree(self.adjacency@, pre_stack, x) by {
                            lemma_push_contains(tk, u, x);
                            if x != u {
                                assert(degree@[x as int] == dg0[x as int]);
                            }
                        }
                    }
                } else {
                    proof {
                        if !removed@[u as int] {
                            assert(self.adjacency@[pick as int]@.contains(u));
                            assert(self.adj(pick, u));
                            assert(self.adj(u, pick));
                            assert(self.adjacency@[u as int]@.contains(pick));
                            lemma_count_outside_pos(self.adjacency@[u as int]@, pre_stack, pick);
                        }
                        assert forall|x: usize| (x as int) < m && !removed@[x as int] implies #[trigger] degree@[x as int] + (if nbrs@.take(
                            t + 1,
                        ).contains(x) { 1int } else { 0int }) == remaining_degree(self.adjacency@, pre_stack, x) by {
                            lemma_push_contains(tk, u, x);
                        }
                    }
                }
                t += 1;
            }
            proof {
                let st1 = stack@;
                assert(st1.take(st1.len() as int) =~= st1);
                assert(st1 == pre_stack.push(pick));
                assert forall|k: int| 0 <= k < pre_stack.len() implies self.nodes@.contains(#[trigger] pre_stack[k]) by {
                    assert(pre_stack.to_set().contains(pre_stack[k]));
                    assert(self.nodes@.to_set().contains(pre_stack[k]));
                }
                assert forall|x: usize| #[trigger] self.nodes@.contains(x) implies (x as int) < since0.len() by {
                    let j = choose|j: int| 0 <= j < self.nodes@.len() && self.nodes@[j] == x;
                }
                assert forall|k: int| 0 <= k < q0.len() implies 0 <= #[trigger] since0[q0[k] as int] <= pre_stack.len() by {
                }
            }
            proof {
                assert(nbrs@.take(nbrs@.len() as int) =~= nbrs@);
                assert forall|x: usize| (x as int) < m && !removed@[x as int] implies #[trigger] degree@[x as int] == remaining_degree(
                    self.adjacency@,
                    stack@,
                    x,
                ) by {
                    lemma_count_outside_push(self.adjacency@[x as int]@, pre_stack, pick);
                    assert(self.adj(pick, x) == self.adj(x, pick));
                    assert(nbrs@.contains(x) == self.adj(pick, x));
                    assert(self.adjacency@[x as int]@.contains(pick) == self.adj(x, pick));
                }
                let st1 = stack@;
                assert(st1.take(st1.len() as int) =~= st1);
                assert forall|x: int|
                    0 <= x < since0.len() implies #[trigger] since[x] == since0[x] || (since0[x] == -1 && since[x] == pre_stack.len() + 1
                        && !pre_stack.push(pick).contains(x as usize) && low_at(self.adjacency@, pre_stack.push(pick), pre_stack.len() + 1int, x as usize)) by {
                    if since[x] != since0[x] {
                        assert(!removed@[x]);
                        assert(low_degree@.contains(x as usize));
                        let q = choose|q: int| 0 <= q < low_degree@.len() && low_degree@[q] == x as usize;
                        assert(degree@[low_degree@[q] as int] < NUM_COLORS);
                        assert(degree@[x] == remaining_degree(self.adjacency@, st1, x as usize));
                    }
                }
                assert forall|x: usize|
                    #[trigger] self.nodes@.contains(x) && !pre_stack.push(pick).contains(x) && low_at(self.adjacency@, pre_stack.push(pick), pre_stack.len() + 1int, x) implies 0
                        <= since[x as int] <= pre_stack.len() + 1 by {
                    let j = choose|j: int| 0 <= j < self.nodes@.len() && self.nodes@[j] == x;
                    assert((x as int) < m);
                    assert(!removed@[x as int]);
                    assert(degree@[x as int] < NUM_COLORS);
                    assert(low_degree@.contains(x));
                    let q = choose|q: int| 0 <= q < low_degree@.len() && low_degree@[q] == x;
                }
                lemma_since_ok_push(self.adjacency@, self.nodes@, pre_stack, ps0, potential_spills@, since0, since, q0, removed0, pick);
            }
        }
        proof {
            lemma_same_set(stack@, self.nodes@);
            assert forall|k: int| 0 <= k < stack@.len() implies self.nodes@.contains(#[trigger] stack@[k]) by {
                assert(stack@.to_set().contains(stack@[k]));
                assert(self.nodes@.to_set().contains(stack@[k]));
            }
            lemma_since_fifo(self.adjacency@, self.nodes@, stack@, potential_spills@, since);
        }
        (stack, potential_spills)
    }
}

/// The outcome of register allocation: the register given to each colored
/// virtual register, and the virtual registers that live in stack slots.
#[derive(Debug, Clone)]
pub struct AllocationResult {
    pub coloring: HashMap<usize, u8>,
    pub spilled: Vec<usize>,
}

impl AllocationResult {
    /// No register colored, none spilled.
    pub fn empty() -> (r: Self)
        ensures
            r.coloring@ == Map::<usize, u8>::empty(),
            r.spilled@ == Seq::<usize>::empty(),
    {
        AllocationResult { coloring: HashMap::new(), spilled: Vec::new() }
    }

    /// Every register of `vregs` is either colored or spilled, never both;
    /// colors are allocatable registers; spilled registers are listed once.
    pub open spec fn covers(&self, vregs: Set<usize>) -> bool {
        &&& self.coloring@.dom().union(self.spilled@.to_set()) == vregs
        &&& self.coloring@.dom().disjoint(self.spilled@.to_set())
        &&& self.spilled@.no_duplicates()
        &&& forall|v: usize| #[trigger] self.coloring@.contains_key(v) ==> is_allocatable(self.coloring@[v])
    }
}

impl InterferenceGraph {
    /// Colors the nodes in reverse removal order, each with the first register
    /// that none of its colored neighbours holds; a node with no free register
    /// is spilled.  Spilled nodes are listed potential spills first, then by
    /// number.
    fn select(&self, stack: Vec<usize>, potential_spills: Vec<bool>) -> (r: AllocationResult)
        requires
            self.wf(),
            stack@.no_duplicates(),
            stack@.to_set() == self.nodes@.to_set(),
            potential_spills@.len() == self.adjacency@.len(),
        ensures
            r.covers(self.nodes@.to_set()),
            forall|a: usize, b: usize|
                #[trigger] self.adj(a, b) && r.coloring@.contains_key(a) && r.coloring@.contains_key(b)
                    ==> r.coloring@[a] != r.coloring@[b],
            forall|i: int, j: int|
                0 <= i < j < r.spilled@.len() ==> spill_key(potential_spills@, #[trigger] r.spilled@[i])
                    < spill_key(potential_spills@, #[trigger] r.spilled@[j]),
            forall|v: usize| #[trigger] r.spilled@.contains(v) ==> self.blocked(r.coloring@, v),
            self.lowest(r.coloring@),
    {
        let mut coloring: HashMap<usize, u8> = HashMap::new();
        let mut spilled: Vec<usize> = Vec::new();
        let mut stack = stack;
        proof {
            assert(coloring@.dom().union(spilled@.to_set()).union(stack@.to_set()) =~= self.nodes@.to_set());
        }
        while stack.len() > 0
            invariant
                self.wf(),
                stack@.no_duplicates(),
                spilled@.no_duplicates(),
                coloring@.dom().union(spilled@.to_set()).union(stack@.to_set()) == self.nodes@.to_set(),
                coloring@.dom().disjoint(stack@.to_set()),
                spilled@.to_set().disjoint(stack@.to_set()),
                coloring@.dom().disjoint(spilled@.to_set()),
                forall|v: usize| #[trigger] coloring@.contains_key(v) ==> is_allocatable(coloring@[v]),
                forall|a: usize, b: usize|
                    #[trigger] self.adj(a, b) && coloring@.contains_key(a) && coloring@.contains_key(b)
                        ==> coloring@[a] != coloring@[b],
                forall|x: usize| #[trigger] spilled@.contains(x) ==> self.blocked(coloring@, x),
                self.lowest(coloring@),
            decreases stack@.len(),
        {
            let ghost pre_stack = stack@;
            let v = stack.pop().unwrap();
            proof {
                assert(pre_stack == stack@.push(v));
                crate::common::graph::lemma_push_to_set(stack@, v);
                assert(!stack@.contains(v)) by {
                    if stack@.contains(v) {
                        let t = choose|t: int| 0 <= t < stack@.len() && stack@[t] == v;
                        assert(pre_stack[t] == pre_stack[pre_stack.len() - 1]);
                    }
                }
                assert(self.nodes@.to_set().contains(v));
                assert(self.nodes@.contains(v));
                let q = choose|q: int| 0 <= q < self.nodes@.len() && self.nodes@[q] == v;
                assert(self.nodes@[q] < self.adjacency@.len());
            }
            let mut used: Vec<bool> = Vec::new();
            let mut c: usize = 0;
            while c < NUM_COLORS
                invariant
                    c <= NUM_COLORS,
                    used@.len() == c,
                    forall|t: int| 0 <= t < c ==> !(#[trigger] used@[t]),
                decreases NUM_COLORS - c,
            {
                used.push(false);
                c += 1;
            }
            let nbrs = &self.adjacency[v];
            let mut k: usize = 0;
            while k < nbrs.len()
                invariant
                    used@.len() == NUM_COLORS,
                    k <= nbrs@.len(),
                    forall|v: usize| #[trigger] coloring@.contains_key(v) ==> is_allocatable(coloring@[v]),
                    forall|t: int|
                        0 <= t < k && coloring@.contains_key(#[trigger] nbrs@[t]) ==> used@[coloring@[nbrs@[t]]
                            - 8],
                    forall|t: int|
                        0 <= t < NUM_COLORS && #[trigger] used@[t] ==> exists|j: int|
                            0 <= j < k && coloring@.contains_key(nbrs@[j]) && coloring@[nbrs@[j]] == 8 + t,
                decreases nbrs@.len() - k,
            {
                let u = nbrs[k];
                let ghost pre_used = used@;
                match coloring.get(&u) {
                    Some(col) => {
                        let idx = (*col - 8) as usize;
                        used.set(idx, true);
                        proof {
                            assert forall|t: int| 0 <= t < NUM_COLORS && #[trigger] used@[t] implies exists|j: int|
                                0 <= j < k + 1 && coloring@.contains_key(nbrs@[j]) && coloring@[nbrs@[j]] == 8 + t by {
                                if t == idx as int {
                                    assert(coloring@.contains_key(nbrs@[k as int]) && coloring@[nbrs@[k as int]] == 8 + t);
                                } else {
                                    assert(pre_used[t]);
                                }
                            }
                        }
                    },
                    None => {},
                }
                k += 1;
            }
            let mut c: usize = 0;
            while c < NUM_COLORS && used[c]
                invariant
                    c <= NUM_COLORS,
                    used@.len() == NUM_COLORS,
                    forall|t: int| 0 <= t < c ==> #[trigger] used@[t],
                decreases NUM_COLORS - c,
            {
                c += 1;
            }
            let ghost pre_col = coloring@;
            let ghost pre_sp = spilled@;
            if c < NUM_COLORS {
                let col: u8 = (8 + c) as u8;
                coloring.insert(v, col);
                proof {
                    assert(!pre_col.contains_key(v));
                    assert forall|x: usize| #[trigger] spilled@.contains(x) implies self.blocked(coloring@, x) by {
                        assert(self.blocked(pre_col, x));
                        assert forall|cc: u8| #[trigger] is_allocatable(cc) implies exists|u: usize|
                            self.adj(x, u) && coloring@.contains_key(u) && coloring@[u] == cc by {
                            let u = choose|u: usize| self.adj(x, u) && pre_col.contains_key(u) && pre_col[u] == cc;
                            assert(u != v);
                            assert(coloring@.contains_key(u) && coloring@[u] == cc);
                        }
                    }
                    assert forall|a: usize, b: usize|
                        #[trigger] self.adj(a, b) && coloring@.contains_key(a) && coloring@.contains_key(b)
                            implies coloring@[a] != coloring@[b] by {
                        if a == v && b != v {
                            assert(nbrs@.contains(b));
                            let t = choose|t: int| 0 <= t < nbrs@.len() && nbrs@[t] == b;
                            assert(used@[pre_col[b] - 8]);
                        } else if b == v && a != v {
                            assert(self.adj(b, a));
                            assert(nbrs@.contains(a));
                            let t = choose|t: int| 0 <= t < nbrs@.len() && nbrs@[t] == a;
                            assert(used@[pre_col[a] - 8]);
                        }
                    }
                    assert(coloring@.dom() =~= pre_col.dom().insert(v));
                    assert forall|x: usize, cc: u8|
                        #[trigger] coloring@.contains_key(x) && is_allocatable(cc) && cc < coloring@[x] implies #[trigger] self.nb_holds(coloring@, x, cc) by {
                        if x == v {
                            let t = (cc - 8) as int;
                            assert(0 <= t < c);
                            assert(used@[t]);
                            let j = choose|j: int| 0 <= j < nbrs@.len() && pre_col.contains_key(nbrs@[j]) && pre_col[nbrs@[j]] == 8 + t;
                            let u = nbrs@[j];
                            assert(self.adjacency@[v as int]@.contains(u));
                            assert(self.adj(v, u));
                            assert(u != v);
                            assert(coloring@.contains_key(u) && coloring@[u] == cc);
                        } else {
                            assert(pre_col.contains_key(x));
                            assert(self.nb_holds(pre_col, x, cc));
                            let u = choose|u: usize| self.adj(x, u) && pre_col.contains_key(u) && pre_col[u] == cc;
                            assert(u != v);
                            assert(coloring@.contains_key(u) && coloring@[u] == cc);
                        }
                    }
                }
            } else {
                spilled.push(v);
                proof {
                    assert forall|x: usize| #[trigger] spilled@.contains(x) implies self.blocked(coloring@, x) by {
                        if x == v {
                            assert forall|cc: u8| #[trigger] is_allocatable(cc) implies exists|u: usize|
                                self.adj(x, u) && coloring@.contains_key(u) && coloring@[u] == cc by {
                                let t = cc - 8;
                                assert(used@[t]);
                                let j = choose|j: int| 0 <= j < nbrs@.len() && coloring@.contains_key(nbrs@[j]) && coloring@[nbrs@[j]] == 8 + t;
                                assert(self.adjacency@[v as int]@.contains(nbrs@[j]));
                                assert(self.adj(x, nbrs@[j]));
                            }
                        } else {
                            assert(pre_sp.contains(x));
                        }
                    }
                    crate::common::graph::lemma_push_to_set(pre_sp, v);
                    assert(!pre_sp.contains(v)) by {
                        if pre_sp.contains(v) {
                            assert(pre_sp.to_set().contains(v));
                        }
                    }
                    assert forall|i: int, j: int| 0 <= i < j < spilled@.len() implies spilled@[i] != spilled@[j] by {
                        if j == spilled@.len() - 1 {
                            assert(pre_sp.contains(spilled@[i]));
                        }
                    }
                }
            }
            proof {
                assert(coloring@.dom().union(spilled@.to_set()).union(stack@.to_set()) =~= self.nodes@.to_set());
                assert(coloring@.dom().disjoint(stack@.to_set()));
                assert(spilled@.to_set().disjoint(stack@.to_set()));
                assert(coloring@.dom().disjoint(spilled@.to_set()));
            }
        }
        proof {
            assert(stack@.to_set() =~= Set::<usize>::empty());
            assert(coloring@.dom().union(spilled@.to_set()) =~= self.nodes@.to_set());
            assert forall|k: int| 0 <= k < spilled@.len() implies #[trigger] spilled@[k] < potential_spills@.len() by {
                assert(spilled@.to_set().contains(spilled@[k]));
                assert(self.nodes@.to_set().contains(spilled@[k]));
                assert(self.nodes@.contains(spilled@[k]));
                let q = choose|q: int| 0 <= q < self.nodes@.len() && self.nodes@[q] == spilled@[k];
                assert(self.nodes@[q] < self.adjacency@.len());
            }
        }
        let ghost pre_sort = spilled@;
        sort_spills(&mut spilled, &potential_spills);
        proof {
            assert forall|x: usize| #[trigger] spilled@.contains(x) implies self.blocked(coloring@, x) by {
                assert(spilled@.to_set().contains(x));
                assert(pre_sort.to_set().contains(x));
            }
        }
        AllocationResult { coloring, spilled }
    }

    /// Colors the graph: simplify, then select.
    fn color(&self) -> (r: AllocationResult)
        requires
            self.wf(),
        ensures
            r.covers(self.nodes@.to_set()),
            forall|a: usize, b: usize|
                #[trigger] self.adj(a, b) && r.coloring@.contains_key(a) && r.coloring@.contains_key(b)
                    ==> r.coloring@[a] != r.coloring@[b],
            forall|v: usize| #[trigger] r.spilled@.contains(v) ==> self.blocked(r.coloring@, v),
            self.lowest(r.coloring@),
            exists|order: Seq<usize>, sp: Seq<bool>|
                #![trigger simplify_order(self.adjacency@, self.nodes@, order, sp)]
                order.no_duplicates() && order.to_set() == self.nodes@.to_set() && sp.len() == self.adjacency@.len()
                    && simplify_order(self.adjacency@, self.nodes@, order, sp) && simplify_fifo(self.adjacency@, order, sp)
                    && forall|i: int, j: int|
                    0 <= i < j < r.spilled@.len() ==> spill_key(sp, #[trigger] r.spilled@[i]) < spill_key(sp, #[trigger] r.spilled@[j]),
    {
        if self.nodes.len() == 0 {
            let r = AllocationResult::empty();
            proof {
                assert(self.nodes@.to_set() =~= Set::<usize>::empty());
                assert(r.coloring@.dom().union(r.spilled@.to_set()) =~= Set::<usize>::empty());
                let order = Seq::<usize>::empty();
                let sp = Seq::new(self.adjacency@.len(), |x: int| false);
                assert(order.to_set() =~= self.nodes@.to_set());
                assert(simplify_order(self.adjacency@, self.nodes@, order, sp));
                assert(simplify_fifo(self.adjacency@, order, sp));
            }
            return r;
        }
        let (stack, potential_spills) = self.simplify();
        let ghost order = stack@;
        let ghost sp = potential_spills@;
        let r = self.select(stack, potential_spills);
        proof {
            assert(simplify_order(self.adjacency@, self.nodes@, order, sp));
        }
        r
    }
}

/// Allocates registers for a function's instructions.  Every virtual register
/// is either given one of `x8..x15` or spilled; two registers that interfere
/// (one is written while the other is live, by the least liveness solution)
/// never share a register; and a register is spilled only when each of
/// `x8..x15` is held by a register that interferes with it.
pub fn allocate(instructions: &[Inst]) -> (r: AllocationResult)
    requires
        branches_resolved(instructions@),
        forall|i: int, k: int|
            0 <= i < instructions@.len() && 0 <= k < instructions@[i].spec_used().len()
                ==> #[trigger] instructions@[i].spec_used()[k] < usize::MAX,
        forall|i: int, k: int|
            0 <= i < instructions@.len() && 0 <= k < instructions@[i].spec_defined().len()
                ==> #[trigger] instructions@[i].spec_defined()[k] < usize::MAX,
    ensures
        r.covers(all_vregs(instructions@)),
        forall|a: usize, b: usize|
            #[trigger] interferes(instructions@, a, b) && r.coloring@.contains_key(a)
                && r.coloring@.contains_key(b) ==> r.coloring@[a] != r.coloring@[b],
        forall|v: usize| #[trigger] r.spilled@.contains(v) ==> spilled_of_need(instructions@, r.coloring@, v),
        lowest_colors(instructions@, r.coloring@),
{
    let ghost insts = instructions@;
    if instructions.len() == 0 {
        let r = AllocationResult::empty();
        proof {
            assert(all_vregs(insts) =~= Set::<usize>::empty());
            assert(r.coloring@.dom().union(r.spilled@.to_set()) =~= Set::<usize>::empty());
        }
        return r;
    }
    let cfg = Graph::from_nodes(instructions);
    let n = instructions.len();
    let mut gen: Vec<VregSet> = Vec::new();
    let mut kill: Vec<VregSet> = Vec::new();
    let mut i: usize = 0;
    while i < n
        invariant
            i <= n,
            n == insts.len(),
            insts == instructions@,
            gen@.len() == i,
            kill@.len() == i,
            forall|j: int| 0 <= j < i ==> (#[trigger] gen@[j]).0@ == insts[j].spec_used(),
            forall|j: int| 0 <= j < i ==> (#[trigger] kill@[j]).0@ == insts[j].spec_defined(),
        decreases n - i,
    {
        gen.push(VregSet(instructions[i].used_vregs()));
        kill.push(VregSet(instructions[i].defined_vregs()));
        i += 1;
    }
    let liveness = BackwardLiveness::<VregSet>::compute(&gen, &kill, &cfg);
    proof {
        assert(models(gen@) =~= used_sets(insts));
        assert(models(kill@) =~= defined_sets(insts));
        assert(cfg.succ_seqs() =~= inst_succs(insts));
        assert forall|k: int| 0 <= k < all_nodes(n as nat).len() implies models(gen@)[all_nodes(n as nat)[k] as int].subset_of(
            all_vregs(insts),
        ) by {
            lemma_vregs_before_mono(insts, n as int, k);
        }
        crate::common::graph::lemma_union_over_bounded(models(gen@), all_nodes(n as nat), all_vregs(insts));
    }
    let graph = InterferenceGraph::build(instructions, &liveness);
    let r = graph.color();
    proof {
        assert forall|a: usize, b: usize|
            #[trigger] interferes(insts, a, b) && r.coloring@.contains_key(a) && r.coloring@.contains_key(b)
                implies r.coloring@[a] != r.coloring@[b] by {
            assert(graph.adj(a, b));
        }
        assert forall|v: usize| #[trigger] r.spilled@.contains(v) implies spilled_of_need(insts, r.coloring@, v) by {
            assert(graph.blocked(r.coloring@, v));
            assert forall|c: u8| #[trigger] is_allocatable(c) implies exists|u: usize|
                interferes(insts, v, u) && r.coloring@.contains_key(u) && r.coloring@[u] == c by {
                let u = choose|u: usize| graph.adj(v, u) && r.coloring@.contains_key(u) && r.coloring@[u] == c;
                assert(graph.adj(v, u));
                assert(interferes(insts, v, u));
            }
        }
        assert forall|v: usize, c: u8|
            #[trigger] r.coloring@.contains_key(v) && is_allocatable(c) && c < r.coloring@[v] implies #[trigger] held_by(insts, r.coloring@, v, c) by {
            assert(graph.nb_holds(r.coloring@, v, c));
            let u = choose|u: usize| graph.adj(v, u) && r.coloring@.contains_key(u) && r.coloring@[u] == c;
            assert(interferes(insts, v, u));
        }
    }
    r
}

/// Each colored register took the lowest register its neighbours left:
/// every lower register that the allocator hands out is held by a register
/// that interferes with it.
pub open spec fn lowest_colors(insts: Seq<Inst>, coloring: Map<usize, u8>) -> bool {
    forall|v: usize, c: u8|
        #[trigger] coloring.contains_key(v) && is_allocatable(c) && c < coloring[v] ==> #[trigger] held_by(insts, coloring, v, c)
}

/// Register `c` is held by a register that interferes with `v`.
pub open spec fn held_by(insts: Seq<Inst>, coloring: Map<usize, u8>, v: usize, c: u8) -> bool {
    exists|u: usize| interferes(insts, v, u) && coloring.contains_key(u) && coloring[u] == c
}

/// `v` could take no register: each register that the allocator hands out
/// is held by a register that interferes with `v`.
pub open spec fn spilled_of_need(insts: Seq<Inst>, coloring: Map<usize, u8>, v: usize) -> bool {
    forall|c: u8| #[trigger] is_allocatable(c) ==> exists|u: usize| interferes(insts, v, u) && coloring.contains_key(u) && coloring[u] == c
}

// ---------------------------------------------------------------------------
// Rewriting virtual registers to physical ones
// ---------------------------------------------------------------------------

/// The text of an instruction, for messages (`Debug`).
#[verifier::external_body]
fn debug_text(inst: &Inst) -> String {
    format!("{inst:?}")
}

/// A register can be read or written after allocation: it is physical, or it
/// is colored, or it has a spill slot.
pub open spec fn reg_ok(coloring: Map<usize, u8>, slots: Map<usize, i64>, r: Register) -> bool {
    match r {
        Register::Virtual(v) => coloring.contains_key(v) || slots.contains_key(v),
        _ => true,
    }
}

pub open spec fn operand_ok(coloring: Map<usize, u8>, slots: Map<usize, i64>, o: Operand) -> bool {
    match o {
        Operand::Register(r) => reg_ok(coloring, slots, r),
        Operand::Immediate(_) => true,
    }
}

/// A move into a register that lives in memory must take its value from a
/// register other than the stack pointer, or from an immediate.
pub open spec fn mov_dst_ok(coloring: Map<usize, u8>, slots: Map<usize, i64>, dst: Register, src: Operand) -> bool {
    match dst {
        Register::Virtual(v) => if coloring.contains_key(v) && !slots.contains_key(v) {
            true
        } else {
            slots.contains_key(v) && src != Operand::Register(Register::StackPointer)
        },
        _ => true,
    }
}

/// Whether the rewriter can rewrite `inst` with this coloring and these slots.
pub open spec fn inst_ok(coloring: Map<usize, u8>, slots: Map<usize, i64>, inst: Inst) -> bool {
    match inst {
        Inst::Mov { dst, src, .. } => operand_ok(coloring, slots, src) && mov_dst_ok(
            coloring,
            slots,
            dst,
            src,
        ),
        Inst::BinOp { dst, lhs, rhs, .. } => reg_ok(coloring, slots, lhs) && operand_ok(
            coloring,
            slots,
            rhs,
        ) && reg_ok(coloring, slots, dst),
        Inst::Cmp { lhs, rhs, .. } => reg_ok(coloring, slots, lhs) && operand_ok(coloring, slots, rhs),
        Inst::Ldr { dst, .. } => reg_ok(coloring, slots, dst),
        Inst::Str { src, .. } => reg_ok(coloring, slots, src),
        Inst::Lea { dst, .. } => reg_ok(coloring, slots, dst),
        Inst::Gep { dst, base, index, .. } => reg_ok(coloring, slots, base) && match index {
            IndexOperand::Reg(r) => reg_ok(coloring, slots, r),
            IndexOperand::Imm(_) => true,
        } && reg_ok(coloring, slots, dst),
        _ => true,
    }
}

/// The stack slot of spilled register `v`, relative to the frame pointer.
pub open spec fn slot_addr(slots: Map<usize, i64>, v: usize) -> Addr {
    Addr::BaseOff { base: Register::Physical(29), offset: slots[v] }
}

/// Whether register `r` lives in a stack slot after allocation.
pub open spec fn in_slot(slots: Map<usize, i64>, r: Register) -> bool {
    r matches Register::Virtual(v) && slots.contains_key(v)
}

/// The store of physical register `from` into the slot of `v`.
pub open spec fn slot_store(slots: Map<usize, i64>, v: usize, size: RegSize, from: u8) -> Inst {
    Inst::Str { size, src: Register::Physical(from), addr: slot_addr(slots, v) }
}

/// The load that brings source register `r` into `scratch`: one when it
/// lives in a slot, none otherwise.
pub open spec fn src_loads(slots: Map<usize, i64>, r: Register, size: RegSize, scratch: u8) -> Seq<Inst> {
    match r {
        Register::Virtual(v) => if slots.contains_key(v) {
            seq![Inst::Ldr { size, dst: Register::Physical(scratch), addr: slot_addr(slots, v) }]
        } else {
            Seq::empty()
        },
        _ => Seq::empty(),
    }
}

/// The register that source `r` is read from: `scratch` when it lives in a
/// slot, else its color; a physical register or the stack pointer stays.
pub open spec fn src_reg(coloring: Map<usize, u8>, slots: Map<usize, i64>, r: Register, scratch: u8) -> Register {
    match r {
        Register::Virtual(v) => if slots.contains_key(v) {
            Register::Physical(scratch)
        } else {
            Register::Physical(coloring[v])
        },
        _ => r,
    }
}

pub open spec fn src_operand_loads(slots: Map<usize, i64>, o: Operand, size: RegSize, scratch: u8) -> Seq<Inst> {
    match o {
        Operand::Register(r) => src_loads(slots, r, size, scratch),
        Operand::Immediate(_) => Seq::empty(),
    }
}

pub open spec fn src_operand(coloring: Map<usize, u8>, slots: Map<usize, i64>, o: Operand, scratch: u8) -> Operand {
    match o {
        Operand::Register(r) => Operand::Register(src_reg(coloring, slots, r, scratch)),
        Operand::Immediate(i) => Operand::Immediate(i),
    }
}

/// The register that destination `r` is written to when it does not live in
/// a slot: its color, or itself.
pub open spec fn dst_reg(coloring: Map<usize, u8>, r: Register) -> Register {
    match r {
        Register::Virtual(v) => Register::Physical(coloring[v]),
        _ => r,
    }
}

/// The instructions that the result of `inst` takes when destination `dst`
/// lives in a slot: `inst` writes `scratch`, which is then stored.
pub open spec fn through_slot(slots: Map<usize, i64>, dst: Register, size: RegSize, scratch: u8, inst: Inst) -> Seq<Inst> {
    seq![inst, slot_store(slots, dst->Virtual_0, size, scratch)]
}

/// What a move becomes.
pub open spec fn mov_output(coloring: Map<usize, u8>, slots: Map<usize, i64>, size: RegSize, dst: Register, src: Operand) -> Seq<Inst> {
    let loads = src_operand_loads(slots, src, size, SCRATCH1);
    let op = src_operand(coloring, slots, src, SCRATCH1);
    if in_slot(slots, dst) {
        let v = dst->Virtual_0;
        match op {
            Operand::Immediate(i) => loads + seq![
                Inst::Mov { size, dst: Register::Physical(SCRATCH0), src: Operand::Immediate(i) },
                slot_store(slots, v, size, SCRATCH0),
            ],
            Operand::Register(Register::Physical(n)) => loads + seq![slot_store(slots, v, size, n)],
            _ => loads,
        }
    } else {
        loads + seq![Inst::Mov { size, dst: dst_reg(coloring, dst), src: op }]
    }
}

/// What an arithmetic instruction becomes.
pub open spec fn binop_output(
    coloring: Map<usize, u8>,
    slots: Map<usize, i64>,
    op: BinOp,
    size: RegSize,
    dst: Register,
    lhs: Register,
    rhs: Operand,
) -> Seq<Inst> {
    let loads = src_loads(slots, lhs, size, SCRATCH0) + src_operand_loads(slots, rhs, size, SCRATCH1);
    let l = src_reg(coloring, slots, lhs, SCRATCH0);
    let r = src_operand(coloring, slots, rhs, SCRATCH1);
    if in_slot(slots, dst) {
        loads + through_slot(slots, dst, size, SCRATCH0, Inst::BinOp { op, size, dst: Register::Physical(SCRATCH0), lhs: l, rhs: r })
    } else {
        loads + seq![Inst::BinOp { op, size, dst: dst_reg(coloring, dst), lhs: l, rhs: r }]
    }
}

/// What a comparison becomes.
pub open spec fn cmp_output(coloring: Map<usize, u8>, slots: Map<usize, i64>, size: RegSize, lhs: Register, rhs: Operand) -> Seq<Inst> {
    src_loads(slots, lhs, size, SCRATCH0) + src_operand_loads(slots, rhs, size, SCRATCH1) + seq![
        Inst::Cmp { size, lhs: src_reg(coloring, slots, lhs, SCRATCH0), rhs: src_operand(coloring, slots, rhs, SCRATCH1) },
    ]
}

/// Whether the base of `addr` is taken from `scratch` after rewriting: a
/// virtual base without a color.
pub open spec fn addr_scratched(coloring: Map<usize, u8>, addr: Addr) -> bool {
    addr matches Addr::BaseOff { base: Register::Virtual(v), .. } && !coloring.contains_key(v)
}

/// The load of an address's spilled base into `scratch`: one when the base
/// has no color and lives in a slot.
pub open spec fn addr_loads(coloring: Map<usize, u8>, slots: Map<usize, i64>, addr: Addr, scratch: u8) -> Seq<Inst> {
    match addr {
        Addr::BaseOff { base: Register::Virtual(v), .. } => if !coloring.contains_key(v) && slots.contains_key(v) {
            seq![Inst::Ldr { size: RegSize::X64, dst: Register::Physical(scratch), addr: slot_addr(slots, v) }]
        } else {
            Seq::empty()
        },
        _ => Seq::empty(),
    }
}

/// An address after rewriting: a colored base takes its color, another
/// virtual base becomes `scratch`.
pub open spec fn addr_after(coloring: Map<usize, u8>, addr: Addr, scratch: u8) -> Addr {
    match addr {
        Addr::BaseOff { base: Register::Virtual(v), offset } => if coloring.contains_key(v) {
            Addr::BaseOff { base: Register::Physical(coloring[v]), offset }
        } else {
            Addr::BaseOff { base: Register::Physical(scratch), offset }
        },
        _ => addr,
    }
}

/// The scratch register left free by an address rewritten with `SCRATCH0`.
pub open spec fn after_addr_scratch(coloring: Map<usize, u8>, addr: Addr) -> u8 {
    if addr_scratched(coloring, addr) {
        SCRATCH1
    } else {
        SCRATCH0
    }
}

/// What a load becomes.
pub open spec fn ldr_output(coloring: Map<usize, u8>, slots: Map<usize, i64>, size: RegSize, dst: Register, addr: Addr) -> Seq<Inst> {
    let a = addr_after(coloring, addr, SCRATCH0);
    let sd = after_addr_scratch(coloring, addr);
    addr_loads(coloring, slots, addr, SCRATCH0) + if in_slot(slots, dst) {
        through_slot(slots, dst, size, sd, Inst::Ldr { size, dst: Register::Physical(sd), addr: a })
    } else {
        seq![Inst::Ldr { size, dst: dst_reg(coloring, dst), addr: a }]
    }
}

/// What a store becomes.
pub open spec fn str_output(coloring: Map<usize, u8>, slots: Map<usize, i64>, size: RegSize, src: Register, addr: Addr) -> Seq<Inst> {
    let ss = after_addr_scratch(coloring, addr);
    addr_loads(coloring, slots, addr, SCRATCH0) + src_loads(slots, src, size, ss) + seq![
        Inst::Str { size, src: src_reg(coloring, slots, src, ss), addr: addr_after(coloring, addr, SCRATCH0) },
    ]
}

/// What an address computation becomes.
pub open spec fn lea_output(coloring: Map<usize, u8>, slots: Map<usize, i64>, dst: Register, addr: Addr) -> Seq<Inst> {
    let a = addr_after(coloring, addr, SCRATCH0);
    let sd = after_addr_scratch(coloring, addr);
    addr_loads(coloring, slots, addr, SCRATCH0) + if in_slot(slots, dst) {
        through_slot(slots, dst, RegSize::X64, sd, Inst::Lea { dst: Register::Physical(sd), addr: a })
    } else {
        seq![Inst::Lea { dst: dst_reg(coloring, dst), addr: a }]
    }
}

/// What an element address computation becomes.
pub open spec fn gep_output(
    coloring: Map<usize, u8>,
    slots: Map<usize, i64>,
    dst: Register,
    base: Register,
    index: IndexOperand,
    scale: i64,
) -> Seq<Inst> {
    let b = src_reg(coloring, slots, base, SCRATCH0);
    let sc = if b == Register::Physical(SCRATCH0) {
        SCRATCH1
    } else {
        SCRATCH0
    };
    let (index_loads, idx) = match index {
        IndexOperand::Reg(r) => (src_loads(slots, r, RegSize::W32, sc), IndexOperand::Reg(src_reg(coloring, slots, r, sc))),
        IndexOperand::Imm(i) => (Seq::<Inst>::empty(), IndexOperand::Imm(i)),
    };
    src_loads(slots, base, RegSize::X64, SCRATCH0) + index_loads + if in_slot(slots, dst) {
        through_slot(slots, dst, RegSize::X64, sc, Inst::Gep { dst: Register::Physical(sc), base: b, index: idx, scale })
    } else {
        seq![Inst::Gep { dst: dst_reg(coloring, dst), base: b, index: idx, scale }]
    }
}

/// What an instruction becomes after allocation; one without registers stays.
pub open spec fn rewrite_output(coloring: Map<usize, u8>, slots: Map<usize, i64>, inst: Inst) -> Seq<Inst> {
    match inst {
        Inst::Mov { size, dst, src } => mov_output(coloring, slots, size, dst, src),
        Inst::BinOp { op, size, dst, lhs, rhs } => binop_output(coloring, slots, op, size, dst, lhs, rhs),
        Inst::Cmp { size, lhs, rhs } => cmp_output(coloring, slots, size, lhs, rhs),
        Inst::Ldr { size, dst, addr } => ldr_output(coloring, slots, size, dst, addr),
        Inst::Str { size, src, addr } => str_output(coloring, slots, size, src, addr),
        Inst::Lea { dst, addr } => lea_output(coloring, slots, dst, addr),
        Inst::Gep { dst, base, index, scale } => gep_output(coloring, slots, dst, base, index, scale),
        _ => seq![inst],
    }
}

/// What a list of instructions becomes: the rewrites, in order.
pub open spec fn rewritten_seq(coloring: Map<usize, u8>, slots: Map<usize, i64>, insts: Seq<Inst>) -> Seq<Inst>
    decreases insts.len(),
{
    if insts.len() == 0 {
        Seq::empty()
    } else {
        rewritten_seq(coloring, slots, insts.drop_last()) + rewrite_output(coloring, slots, insts.last())
    }
}

/// The instruction reads and writes no virtual register.
pub open spec fn vreg_free(inst: Inst) -> bool {
    inst.spec_used().len() == 0 && inst.spec_defined().len() == 0
}

pub open spec fn not_virtual(r: Register) -> bool {
    !(r is Virtual)
}

pub open spec fn operand_not_virtual(o: Operand) -> bool {
    match o {
        Operand::Register(r) => not_virtual(r),
        Operand::Immediate(_) => true,
    }
}

pub open spec fn addr_not_virtual(a: Addr) -> bool {
    match a {
        Addr::BaseOff { base, .. } => not_virtual(base),
        Addr::Global(_) => true,
    }
}

/// Where a register ends up after allocation.
enum MappedReg {
    Physical { reg: Register },
    Colored { reg: Register, vreg: usize },
    Spilled { vreg: usize },
}

/// Rewrites instructions over virtual registers into instructions over
/// physical registers, loading and storing spilled values through scratch
/// registers.
struct InstRewriter<'a> {
    alloc: &'a AllocationResult,
    frame: &'a StackFrame,
    output: Vec<Inst>,
}

impl<'a> InstRewriter<'a> {
    spec fn coloring(&self) -> Map<usize, u8> {
        self.alloc.coloring@
    }

    spec fn slots(&self) -> Map<usize, i64> {
        self.frame.slot_map()
    }

    /// Every emitted instruction is free of virtual registers.
    spec fn wf(&self) -> bool {
        forall|k: int| 0 <= k < self.output@.len() ==> vreg_free(#[trigger] self.output@[k])
    }

    spec fn same_setting(&self, other: &Self) -> bool {
        self.alloc == other.alloc && self.frame == other.frame
    }

    fn new(alloc: &'a AllocationResult, frame: &'a StackFrame) -> (r: Self)
        ensures
            r.alloc == alloc,
            r.frame == frame,
            r.output@ == Seq::<Inst>::empty(),
    {
        InstRewriter { alloc, frame, output: Vec::new() }
    }

    fn into_output(self) -> (r: Vec<Inst>)
        ensures
            r == self.output,
    {
        self.output
    }

    fn emit(&mut self, inst: Inst)
        requires
            old(self).wf(),
            vreg_free(inst),
        ensures
            final(self).wf(),
            final(self).same_setting(old(self)),
            final(self).output@ == old(self).output@.push(inst),
    {
        self.output.push(inst);
    }

    /// The color of `v`, if it has one.
    fn color_of(&self, v: usize) -> (r: Option<u8>)
        ensures
            r == (if self.coloring().contains_key(v) {
                Some(self.coloring()[v])
            } else {
                None::<u8>
            }),
    {
        match self.alloc.coloring.get(&v) {
            Some(c) => Some(*c),
            None => None,
        }
    }

    /// Whether `v` has a spill slot.
    fn is_spilled(&self, v: usize) -> (r: bool)
        ensures
            r == self.slots().contains_key(v),
    {
        self.frame.spill_slot(v).is_some()
    }

    fn map_reg(&self, r: Register) -> (m: MappedReg)
        requires
            self.wf(),
        ensures
            match r {
                Register::Virtual(v) => if self.coloring().contains_key(v) {
                    m matches MappedReg::Colored { reg, vreg } && vreg == v && reg == Register::Physical(
                        self.coloring()[v],
                    )
                } else {
                    m == MappedReg::Spilled { vreg: v }
                },
                _ => m == MappedReg::Physical { reg: r },
            },
    {
        match r {
            Register::Virtual(v) => match self.color_of(v) {
                Some(p) => MappedReg::Colored { reg: Register::Physical(p), vreg: v },
                None => MappedReg::Spilled { vreg: v },
            },
            other => MappedReg::Physical { reg: other },
        }
    }

    fn missing_slot(v: usize) -> (e: Error)
        ensures
            e matches Error::Internal(m) && m@ == "missing spill slot for vreg "@ + decimal(v as nat),
    {
        let mut msg = String::new();
        push_str(&mut msg, "missing spill slot for vreg ");
        push_decimal(&mut msg, v as u64);
        assert(msg@ =~= "missing spill slot for vreg "@ + decimal(v as nat));
        Error::Internal(msg)
    }

    /// Loads spilled `v` from its slot into physical register `into`.
    fn emit_spill_load(&mut self, v: usize, size: RegSize, into: u8) -> (r: Result<(), Error>)
        requires
            old(self).wf(),
        ensures
            r matches Err(e) ==> e is Internal,
            final(self).wf(),
            final(self).same_setting(old(self)),
            r.is_ok() == old(self).slots().contains_key(v),
            r.is_ok() ==> final(self).output@ == old(self).output@.push(
                Inst::Ldr { size, dst: Register::Physical(into), addr: slot_addr(old(self).slots(), v) },
            ),
    {
        match self.frame.spill_slot(v) {
            Some(slot) => {
                self.emit(
                    Inst::Ldr {
                        size,
                        dst: Register::Physical(into),
                        addr: Addr::BaseOff { base: Register::Physical(29), offset: slot.offset_from_fp },
                    },
                );
                Ok(())
            },
            None => Err(Self::missing_slot(v)),
        }
    }

    /// Stores physical register `from` into the slot of spilled `v`.
    fn emit_spill_store(&mut self, v: usize, size: RegSize, from: u8) -> (r: Result<(), Error>)
        requires
            old(self).wf(),
        ensures
            r matches Err(e) ==> e is Internal,
            final(self).wf(),
            final(self).same_setting(old(self)),
            r.is_ok() == old(self).slots().contains_key(v),
            r.is_ok() ==> final(self).output@ == old(self).output@.push(slot_store(old(self).slots(), v, size, from)),
    {
        match self.frame.spill_slot(v) {
            Some(slot) => {
                self.emit(
                    Inst::Str {
                        size,
                        src: Register::Physical(from),
                        addr: Addr::BaseOff { base: Register::Physical(29), offset: slot.offset_from_fp },
                    },
                );
                Ok(())
            },
            None => Err(Self::missing_slot(v)),
        }
    }

    /// The physical register that holds source `r`, loading it into `scratch` if spilled.
    fn load_src_reg(&mut self, r: Register, size: RegSize, scratch: u8) -> (res: Result<Register, Error>)
        requires
            old(self).wf(),
        ensures
            res matches Err(e) ==> e is Internal,
            final(self).wf(),
            final(self).same_setting(old(self)),
            res.is_ok() == reg_ok(old(self).coloring(), old(self).slots(), r),
            res matches Ok(x) ==> not_virtual(x) && (x == Register::StackPointer <==> r == Register::StackPointer),
            res matches Ok(x) ==> x == src_reg(old(self).coloring(), old(self).slots(), r, scratch)
                && final(self).output@ == old(self).output@ + src_loads(old(self).slots(), r, size, scratch),
    {
        match self.map_reg(r) {
            MappedReg::Physical { reg } => Ok(reg),
            MappedReg::Colored { reg, vreg } => {
                if self.is_spilled(vreg) {
                    self.emit_spill_load(vreg, size, scratch)?;
                    Ok(Register::Physical(scratch))
                } else {
                    Ok(reg)
                }
            },
            MappedReg::Spilled { vreg } => {
                self.emit_spill_load(vreg, size, scratch)?;
                Ok(Register::Physical(scratch))
            },
        }
    }

    fn load_src_operand(&mut self, op: Operand, size: RegSize, scratch: u8) -> (res: Result<Operand, Error>)
        requires
            old(self).wf(),
        ensures
            res matches Err(e) ==> e is Internal,
            final(self).wf(),
            final(self).same_setting(old(self)),
            res.is_ok() == operand_ok(old(self).coloring(), old(self).slots(), op),
            res matches Ok(x) ==> operand_not_virtual(x) && (x == Operand::Register(Register::StackPointer)
                <==> op == Operand::Register(Register::StackPointer)),
            res matches Ok(x) ==> x == src_operand(old(self).coloring(), old(self).slots(), op, scratch)
                && final(self).output@ == old(self).output@ + src_operand_loads(old(self).slots(), op, size, scratch),
    {
        match op {
            Operand::Immediate(i) => Ok(Operand::Immediate(i)),
            Operand::Register(r) => Ok(Operand::Register(self.load_src_reg(r, size, scratch)?)),
        }
    }

    /// A physical register number that holds `op`: immediates are first moved into `scratch`.
    fn operand_to_phys_reg(&mut self, op: Operand, size: RegSize, scratch: u8) -> (res: Result<u8, Error>)
        requires
            old(self).wf(),
        ensures
            res matches Err(e) ==> e is Internal,
            final(self).wf(),
            final(self).same_setting(old(self)),
            res.is_ok() == !(op == Operand::Register(Register::StackPointer) || op matches Operand::Register(
                Register::Virtual(_),
            )),
            res matches Ok(n) ==> match op {
                Operand::Immediate(i) => n == scratch && final(self).output@ == old(self).output@.push(
                    Inst::Mov { size, dst: Register::Physical(scratch), src: Operand::Immediate(i) },
                ),
                Operand::Register(Register::Physical(m)) => n == m && final(self).output@ == old(self).output@,
                _ => false,
            },
    {
        match op {
            Operand::Immediate(imm) => {
                self.emit(Inst::Mov { size, dst: Register::Physical(scratch), src: Operand::Immediate(imm) });
                Ok(scratch)
            },
            Operand::Register(Register::Physical(n)) => Ok(n),
            Operand::Register(Register::StackPointer) => {
                Err(Error::Internal(String::from_str("cannot use SP as source")))
            },
            Operand::Register(Register::Virtual(_)) => {
                Err(Error::Internal(String::from_str("unexpected vreg in operand")))
            },
        }
    }

    fn rewrite_mov(&mut self, size: RegSize, dst: Register, src: Operand) -> (res: Result<(), Error>)
        requires
            old(self).wf(),
        ensures
            res matches Err(e) ==> e is Internal,
            final(self).wf(),
            final(self).same_setting(old(self)),
            res.is_ok() == (operand_ok(old(self).coloring(), old(self).slots(), src) && mov_dst_ok(
                old(self).coloring(),
                old(self).slots(),
                dst,
                src,
            )),
            res.is_ok() ==> final(self).output@ == old(self).output@ + mov_output(old(self).coloring(), old(self).slots(), size, dst, src),
    {
        let src_op = self.load_src_operand(src, size, SCRATCH1)?;
        match self.map_reg(dst) {
            MappedReg::Physical { reg } => {
                self.emit(Inst::Mov { size, dst: reg, src: src_op });
            },
            MappedReg::Colored { reg, vreg } => {
                if self.is_spilled(vreg) {
                    let from = self.operand_to_phys_reg(src_op, size, SCRATCH0)?;
                    self.emit_spill_store(vreg, size, from)?;
                } else {
                    self.emit(Inst::Mov { size, dst: reg, src: src_op });
                }
            },
            MappedReg::Spilled { vreg } => {
                let from = self.operand_to_phys_reg(src_op, size, SCRATCH0)?;
                self.emit_spill_store(vreg, size, from)?;
            },
        }
        Ok(())
    }

    #[verifier::rlimit(100)]
    fn rewrite_binop(&mut self, op: BinOp, size: RegSize, dst: Register, lhs: Register, rhs: Operand) -> (res: Result<(), Error>)
        requires
            old(self).wf(),
        ensures
            res matches Err(e) ==> e is Internal,
            final(self).wf(),
            final(self).same_setting(old(self)),
            res.is_ok() == (reg_ok(old(self).coloring(), old(self).slots(), lhs) && operand_ok(
                old(self).coloring(),
                old(self).slots(),
                rhs,
            ) && reg_ok(old(self).coloring(), old(self).slots(), dst)),
            res.is_ok() ==> final(self).output@ == old(self).output@ + binop_output(
                old(self).coloring(),
                old(self).slots(),
                op,
                size,
                dst,
                lhs,
                rhs,
            ),
    {
        let ghost out0 = self.output@;
        let lhs_reg = self.load_src_reg(lhs, size, SCRATCH0)?;
        let rhs_op = self.load_src_operand(rhs, size, SCRATCH1)?;
        match self.map_reg(dst) {
            MappedReg::Physical { reg } => {
                self.emit(Inst::BinOp { op, size, dst: reg, lhs: lhs_reg, rhs: rhs_op });
            },
            MappedReg::Colored { reg, vreg } => {
                if self.is_spilled(vreg) {
                    self.emit(Inst::BinOp { op, size, dst: Register::Physical(SCRATCH0), lhs: lhs_reg, rhs: rhs_op });
                    self.emit_spill_store(vreg, size, SCRATCH0)?;
                } else {
                    self.emit(Inst::BinOp { op, size, dst: reg, lhs: lhs_reg, rhs: rhs_op });
                }
            },
            MappedReg::Spilled { vreg } => {
                self.emit(Inst::BinOp { op, size, dst: Register::Physical(SCRATCH0), lhs: lhs_reg, rhs: rhs_op });
                self.emit_spill_store(vreg, size, SCRATCH0)?;
            },
        }
        assert(self.output@ =~= out0 + binop_output(self.coloring(), self.slots(), op, size, dst, lhs, rhs));
        Ok(())
    }

    fn rewrite_cmp(&mut self, size: RegSize, lhs: Register, rhs: Operand) -> (res: Result<(), Error>)
        requires
            old(self).wf(),
        ensures
            res matches Err(e) ==> e is Internal,
            final(self).wf(),
            final(self).same_setting(old(self)),
            res.is_ok() == (reg_ok(old(self).coloring(), old(self).slots(), lhs) && operand_ok(
                old(self).coloring(),
                old(self).slots(),
                rhs,
            )),
            res.is_ok() ==> final(self).output@ == old(self).output@ + cmp_output(old(self).coloring(), old(self).slots(), size, lhs, rhs),
    {
        let lhs_reg = self.load_src_reg(lhs, size, SCRATCH0)?;
        let rhs_op = self.load_src_operand(rhs, size, SCRATCH1)?;
        self.emit(Inst::Cmp { size, lhs: lhs_reg, rhs: rhs_op });
        Ok(())
    }

    /// Rewrites an address: a colored base becomes its register; a spilled base
    /// is loaded into `scratch` (the flag says so); a base with neither uses
    /// `scratch` as it is.
    fn rewrite_addr(&mut self, addr: &Addr, scratch: u8) -> (res: Result<(Addr, bool), Error>)
        requires
            old(self).wf(),
        ensures
            res matches Err(e) ==> e is Internal,
            final(self).wf(),
            final(self).same_setting(old(self)),
            res matches Ok((a, _)) && addr_not_virtual(a),
            res matches Ok((a, f)) && a == addr_after(old(self).coloring(), *addr, scratch) && f == addr_scratched(
                old(self).coloring(),
                *addr,
            ) && final(self).output@ == old(self).output@ + addr_loads(old(self).coloring(), old(self).slots(), *addr, scratch),
    {
        match addr {
            Addr::Global(sym) => Ok((Addr::Global(sym.clone()), false)),
            Addr::BaseOff { base, offset } => match base {
                Register::Virtual(v) => {
                    if let Some(p) = self.color_of(*v) {
                        Ok((Addr::BaseOff { base: Register::Physical(p), offset: *offset }, false))
                    } else if self.is_spilled(*v) {
                        let r = self.emit_spill_load(*v, RegSize::X64, scratch);
                        assert(r.is_ok());
                        Ok((Addr::BaseOff { base: Register::Physical(scratch), offset: *offset }, true))
                    } else {
                        Ok((Addr::BaseOff { base: Register::Physical(scratch), offset: *offset }, true))
                    }
                },
                other => Ok((Addr::BaseOff { base: *other, offset: *offset }, false)),
            },
        }
    }

    fn rewrite_ldr(&mut self, size: RegSize, dst: Register, addr: &Addr) -> (res: Result<(), Error>)
        requires
            old(self).wf(),
        ensures
            res matches Err(e) ==> e is Internal,
            final(self).wf(),
            final(self).same_setting(old(self)),
            res.is_ok() == reg_ok(old(self).coloring(), old(self).slots(), dst),
            res.is_ok() ==> final(self).output@ == old(self).output@ + ldr_output(old(self).coloring(), old(self).slots(), size, dst, *addr),
    {
        let (addr_rewritten, base_used_scratch) = self.rewrite_addr(addr, SCRATCH0)?;
        let scratch_for_dst = if base_used_scratch { SCRATCH1 } else { SCRATCH0 };
        match self.map_reg(dst) {
            MappedReg::Physical { reg } => {
                self.emit(Inst::Ldr { size, dst: reg, addr: addr_rewritten });
            },
            MappedReg::Colored { reg, vreg } => {
                if self.is_spilled(vreg) {
                    self.emit(Inst::Ldr { size, dst: Register::Physical(scratch_for_dst), addr: addr_rewritten });
                    self.emit_spill_store(vreg, size, scratch_for_dst)?;
                } else {
                    self.emit(Inst::Ldr { size, dst: reg, addr: addr_rewritten });
                }
            },
            MappedReg::Spilled { vreg } => {
                self.emit(Inst::Ldr { size, dst: Register::Physical(scratch_for_dst), addr: addr_rewritten });
                self.emit_spill_store(vreg, size, scratch_for_dst)?;
            },
        }
        Ok(())
    }

    fn rewrite_str(&mut self, size: RegSize, src: Register, addr: &Addr) -> (res: Result<(), Error>)
        requires
            old(self).wf(),
        ensures
            res matches Err(e) ==> e is Internal,
            final(self).wf(),
            final(self).same_setting(old(self)),
            res.is_ok() == reg_ok(old(self).coloring(), old(self).slots(), src),
            res.is_ok() ==> final(self).output@ == old(self).output@ + str_output(old(self).coloring(), old(self).slots(), size, src, *addr),
    {
        let (addr_rewritten, base_used_scratch) = self.rewrite_addr(addr, SCRATCH0)?;
        let scratch_for_src = if base_used_scratch { SCRATCH1 } else { SCRATCH0 };
        let src_reg = self.load_src_reg(src, size, scratch_for_src)?;
        self.emit(Inst::Str { size, src: src_reg, addr: addr_rewritten });
        Ok(())
    }

    fn rewrite_lea(&mut self, dst: Register, addr: &Addr) -> (res: Result<(), Error>)
        requires
            old(self).wf(),
        ensures
            res matches Err(e) ==> e is Internal,
            final(self).wf(),
            final(self).same_setting(old(self)),
            res.is_ok() == reg_ok(old(self).coloring(), old(self).slots(), dst),
            res.is_ok() ==> final(self).output@ == old(self).output@ + lea_output(old(self).coloring(), old(self).slots(), dst, *addr),
    {
        let (addr_rewritten, base_used_scratch) = self.rewrite_addr(addr, SCRATCH0)?;
        let scratch_for_dst = if base_used_scratch { SCRATCH1 } else { SCRATCH0 };
        match self.map_reg(dst) {
            MappedReg::Physical { reg } => {
                self.emit(Inst::Lea { dst: reg, addr: addr_rewritten });
            },
            MappedReg::Colored { reg, vreg } => {
                if self.is_spilled(vreg) {
                    self.emit(Inst::Lea { dst: Register::Physical(scratch_for_dst), addr: addr_rewritten });
                    self.emit_spill_store(vreg, RegSize::X64, scratch_for_dst)?;
                } else {
                    self.emit(Inst::Lea { dst: reg, addr: addr_rewritten });
                }
            },
            MappedReg::Spilled { vreg } => {
                self.emit(Inst::Lea { dst: Register::Physical(scratch_for_dst), addr: addr_rewritten });
                self.emit_spill_store(vreg, RegSize::X64, scratch_for_dst)?;
            },
        }
        Ok(())
    }

    fn rewrite_gep(&mut self, dst: Register, base: Register, index: IndexOperand, scale: i64) -> (res: Result<(), Error>)
        requires
            old(self).wf(),
        ensures
            res matches Err(e) ==> e is Internal,
            final(self).wf(),
            final(self).same_setting(old(self)),
            res.is_ok() == (reg_ok(old(self).coloring(), old(self).slots(), base) && match index {
                IndexOperand::Reg(r) => reg_ok(old(self).coloring(), old(self).slots(), r),
                IndexOperand::Imm(_) => true,
            } && reg_ok(old(self).coloring(), old(self).slots(), dst)),
            res.is_ok() ==> final(self).output@ == old(self).output@ + gep_output(
                old(self).coloring(),
                old(self).slots(),
                dst,
                base,
                index,
                scale,
            ),
    {
        let base_reg = self.load_src_reg(base, RegSize::X64, SCRATCH0)?;
        let base_used_scratch = match base_reg {
            Register::Physical(r) => r == SCRATCH0,
            _ => false,
        };
        let index_scratch = if base_used_scratch { SCRATCH1 } else { SCRATCH0 };
        let index_rewritten = match index {
            IndexOperand::Imm(i) => IndexOperand::Imm(i),
            IndexOperand::Reg(r) => IndexOperand::Reg(self.load_src_reg(r, RegSize::W32, index_scratch)?),
        };
        let dst_scratch = if base_used_scratch { SCRATCH1 } else { SCRATCH0 };
        match self.map_reg(dst) {
            MappedReg::Physical { reg } => {
                self.emit(Inst::Gep { dst: reg, base: base_reg, index: index_rewritten, scale });
            },
            MappedReg::Colored { reg, vreg } => {
                if self.is_spilled(vreg) {
                    self.emit(Inst::Gep { dst: Register::Physical(dst_scratch), base: base_reg, index: index_rewritten, scale });
                    self.emit_spill_store(vreg, RegSize::X64, dst_scratch)?;
                } else {
                    self.emit(Inst::Gep { dst: reg, base: base_reg, index: index_rewritten, scale });
                }
            },
            MappedReg::Spilled { vreg } => {
                self.emit(Inst::Gep { dst: Register::Physical(dst_scratch), base: base_reg, index: index_rewritten, scale });
                self.emit_spill_store(vreg, RegSize::X64, dst_scratch)?;
            },
        }
        Ok(())
    }

    fn rewrite_inst(&mut self, inst: &Inst) -> (res: Result<(), Error>)
        requires
            old(self).wf(),
        ensures
            res matches Err(e) ==> e is Internal,
            final(self).wf(),
            final(self).same_setting(old(self)),
            res.is_ok() == inst_ok(old(self).coloring(), old(self).slots(), *inst),
            res.is_ok() ==> final(self).output@ == old(self).output@ + rewrite_output(old(self).coloring(), old(self).slots(), *inst),
    {
        match inst {
            Inst::Label(name) => self.emit(Inst::Label(name.clone())),
            Inst::Mov { size, dst, src } => self.rewrite_mov(*size, *dst, *src)?,
            Inst::BinOp { op, size, dst, lhs, rhs } => self.rewrite_binop(*op, *size, *dst, *lhs, *rhs)?,
            Inst::Cmp { size, lhs, rhs } => self.rewrite_cmp(*size, *lhs, *rhs)?,
            Inst::Ldr { size, dst, addr } => self.rewrite_ldr(*size, *dst, addr)?,
            Inst::Str { size, src, addr } => self.rewrite_str(*size, *src, addr)?,
            Inst::Lea { dst, addr } => self.rewrite_lea(*dst, addr)?,
            Inst::Gep { dst, base, index, scale } => self.rewrite_gep(*dst, *base, *index, *scale)?,
            Inst::B { label } => self.emit(Inst::B { label: label.clone() }),
            Inst::BCond { cond, label } => self.emit(Inst::BCond { cond: *cond, label: label.clone() }),
            Inst::Bl { func } => self.emit(Inst::Bl { func: func.clone() }),
            Inst::SaveCallerRegs => self.emit(Inst::SaveCallerRegs),
            Inst::RestoreCallerRegs => self.emit(Inst::RestoreCallerRegs),
            Inst::SubSp { imm } => self.emit(Inst::SubSp { imm: *imm }),
            Inst::AddSp { imm } => self.emit(Inst::AddSp { imm: *imm }),
            Inst::Ret => self.emit(Inst::Ret),
        }
        Ok(())
    }

    fn rewrite_all(&mut self, insts: &[Inst]) -> (res: Result<(), Error>)
        requires
            old(self).wf(),
        ensures
            res matches Err(e) ==> e is Internal,
            final(self).wf(),
            final(self).same_setting(old(self)),
            res.is_ok() == forall|i: int|
                0 <= i < insts@.len() ==> inst_ok(old(self).coloring(), old(self).slots(), #[trigger] insts@[i]),
            res.is_ok() ==> final(self).output@ == old(self).output@ + rewritten_seq(old(self).coloring(), old(self).slots(), insts@),
    {
        let mut i: usize = 0;
        while i < insts.len()
            invariant
                self.wf(),
                self.same_setting(old(self)),
                i <= insts@.len(),
                forall|j: int| 0 <= j < i ==> inst_ok(old(self).coloring(), old(self).slots(), #[trigger] insts@[j]),
                self.output@ == old(self).output@ + rewritten_seq(old(self).coloring(), old(self).slots(), insts@.take(i as int)),
            decreases insts@.len() - i,
        {
            let ghost before = self.output@;
            self.rewrite_inst(&insts[i])?;
            proof {
                assert(insts@.take(i + 1).drop_last() =~= insts@.take(i as int));
                assert(insts@.take(i + 1).last() == insts@[i as int]);
                assert(self.output@ =~= old(self).output@ + rewritten_seq(old(self).coloring(), old(self).slots(), insts@.take(i + 1)));
            }
            i += 1;
        }
        assert(insts@.take(i as int) =~= insts@);
        Ok(())
    }

    /// Checks that no virtual register is left in the output.
    fn verify_no_vregs(&self) -> (res: Result<(), Error>)
        requires
            self.wf(),
        ensures
            res.is_ok(),
            res matches Err(e) ==> e is Internal,
    {
        let mut k: usize = 0;
        while k < self.output.len()
            invariant
                self.wf(),
                k <= self.output@.len(),
            decreases self.output@.len() - k,
        {
            let inst = &self.output[k];
            assert(vreg_free(self.output@[k as int]));
            if inst.used_vregs().len() != 0 || inst.defined_vregs().len() != 0 {
                let mut msg = String::from_str("rewrite left virtual regs behind: ");
                let text = debug_text(inst);
                push_str(&mut msg, text.as_str());
                return Err(Error::Internal(msg));
            }
            k += 1;
        }
        Ok(())
    }
}

/// Rewrites the instructions over physical registers: colored registers take
/// their color, spilled ones go through their stack slots.  It succeeds
/// exactly when every instruction can be rewritten (`inst_ok`), and then no
/// virtual register is left.
pub fn rewrite_insts(insts: &[Inst], alloc: &AllocationResult, frame: &StackFrame) -> (res: Result<Vec<Inst>, Error>)
    ensures
        res.is_ok() == forall|i: int|
            0 <= i < insts@.len() ==> inst_ok(alloc.coloring@, frame.slot_map(), #[trigger] insts@[i]),
        res matches Ok(out) ==> forall|k: int| 0 <= k < out@.len() ==> vreg_free(#[trigger] out@[k]),
        res matches Ok(out) ==> out@ == rewritten_seq(alloc.coloring@, frame.slot_map(), insts@),
        res matches Err(e) ==> e is Internal,
{
    let mut rewriter = InstRewriter::new(alloc, frame);
    rewriter.rewrite_all(insts)?;
    rewriter.verify_no_vregs()?;
    Ok(rewriter.into_output())
}

/// `out` is `insts` rewritten over physical registers (`rewritten_seq`) for
/// an allocation that colors or spills each register, never gives two
/// interfering registers one color, and puts each spilled register in a
/// stack slot of its own.
pub open spec fn allocated_rewrite(insts: Seq<Inst>, out: Seq<Inst>) -> bool {
    exists|coloring: Map<usize, u8>, spilled: Set<usize>, slots: Map<usize, i64>|
        #![trigger coloring.dom().union(spilled), rewritten_seq(coloring, slots, insts)]
        {
            &&& coloring.dom().union(spilled) == all_vregs(insts)
            &&& coloring.dom().disjoint(spilled)
            &&& forall|v: usize| #[trigger] coloring.contains_key(v) ==> is_allocatable(coloring[v])
            &&& forall|a: usize, b: usize|
                #[trigger] interferes(insts, a, b) && coloring.contains_key(a) && coloring.contains_key(b) ==> coloring[a]
                    != coloring[b]
            &&& forall|v: usize| #[trigger] spilled.contains(v) ==> slots.contains_key(v)
            &&& forall|a: usize, b: usize|
                #[trigger] spilled.contains(a) && #[trigger] spilled.contains(b) && a != b ==> slots[a] != slots[b]
            &&& out == rewritten_seq(coloring, slots, insts)
        }
}

/// No move copies the stack pointer into a register that has a stack slot.
pub open spec fn no_sp_into_slots(insts: Seq<Inst>, slots: Map<usize, i64>) -> bool {
    forall|i: int| 0 <= i < insts.len() ==> match #[trigger] insts[i] {
        Inst::Mov { dst: Register::Virtual(v), src: Operand::Register(Register::StackPointer), .. } => !slots.contains_key(v),
        _ => true,
    }
}

/// Allocation makes rewriting possible: when every register of the
/// instructions is colored or spilled, and every spilled register has a stack
/// slot, the rewriter accepts every instruction (provided no move copies the
/// stack pointer into a register with a slot).
pub proof fn lemma_allocation_enables_rewrite(insts: Seq<Inst>, alloc: AllocationResult, slots: Map<usize, i64>)
    requires
        alloc.covers(all_vregs(insts)),
        forall|v: usize| #[trigger] alloc.spilled@.contains(v) ==> slots.contains_key(v),
        no_sp_into_slots(insts, slots),
    ensures
        forall|i: int| 0 <= i < insts.len() ==> inst_ok(alloc.coloring@, slots, #[trigger] insts[i]),
{
    let coloring = alloc.coloring@;
    assert forall|i: int| 0 <= i < insts.len() implies inst_ok(coloring, slots, #[trigger] insts[i]) by {
        lemma_vregs_before_mono(insts, insts.len() as int, i);
        let used = insts[i].spec_used().to_set();
        let defd = insts[i].spec_defined().to_set();
        assert forall|v: usize| used.contains(v) || defd.contains(v) implies coloring.contains_key(v) || slots.contains_key(v) by {
            assert(all_vregs(insts).contains(v));
            assert(coloring.dom().union(alloc.spilled@.to_set()).contains(v));
            if !coloring.contains_key(v) {
                assert(alloc.spilled@.to_set().contains(v));
                assert(alloc.spilled@.contains(v));
            }
        }
        match insts[i] {
            Inst::Mov { size, dst, src } => {
                if let Operand::Register(Register::Virtual(w)) = src {
                    assert(insts[i].spec_used()[0] == w);
                    assert(used.contains(w));
                }
                if let Register::Virtual(w) = dst {
                    assert(insts[i].spec_defined()[0] == w);
                    assert(defd.contains(w));
                    if src == Operand::Register(Register::StackPointer) {
                        assert(!slots.contains_key(w));
                    }
                }
            },
            Inst::BinOp { dst, lhs, rhs, .. } => {
                if let Register::Virtual(w) = lhs {
                    assert(insts[i].spec_used()[0] == w);
                    assert(used.contains(w));
                }
                if let Operand::Register(Register::Virtual(w)) = rhs {
                    assert(insts[i].spec_used()[insts[i].spec_used().len() - 1] == w);
                    assert(used.contains(w));
                }
                if let Register::Virtual(w) = dst {
                    assert(insts[i].spec_defined()[0] == w);
                    assert(defd.contains(w));
                }
            },
            Inst::Cmp { lhs, rhs, .. } => {
                if let Register::Virtual(w) = lhs {
                    assert(insts[i].spec_used()[0] == w);
                    assert(used.contains(w));
                }
                if let Operand::Register(Register::Virtual(w)) = rhs {
                    assert(insts[i].spec_used()[insts[i].spec_used().len() - 1] == w);
                    assert(used.contains(w));
                }
            },
            Inst::Ldr { dst, .. } => {
                if let Register::Virtual(w) = dst {
                    assert(insts[i].spec_defined()[0] == w);
                    assert(defd.contains(w));
                }
            },
            Inst::Str { src, .. } => {
                if let Register::Virtual(w) = src {
                    assert(insts[i].spec_used()[0] == w);
                    assert(used.contains(w));
                }
            },
            Inst::Lea { dst, .. } => {
                if let Register::Virtual(w) = dst {
                    assert(insts[i].spec_defined()[0] == w);
                    assert(defd.contains(w));
                }
            },
            Inst::Gep { dst, base, index, .. } => {
                if let Register::Virtual(w) = base {
                    assert(insts[i].spec_used()[0] == w);
                    assert(used.contains(w));
                }
                if let IndexOperand::Reg(Register::Virtual(w)) = index {
                    assert(insts[i].spec_used()[insts[i].spec_used().len() - 1] == w);
                    assert(used.contains(w));
                }
                if let Register::Virtual(w) = dst {
                    assert(insts[i].spec_defined()[0] == w);
                    assert(defd.contains(w));
                }
            },
            _ => {},
        }
    }
}

/// No move copies the stack pointer into a virtual register.
pub open spec fn no_sp_moves(insts: Seq<Inst>) -> bool {
    forall|i: int| 0 <= i < insts.len() ==> match #[trigger] insts[i] {
        Inst::Mov { dst: Register::Virtual(_), src: Operand::Register(Register::StackPointer), .. } => false,
        _ => true,
    }
}

/// An instruction names at most three virtual registers.
proof fn lemma_inst_vreg_count(inst: Inst)
    ensures
        inst.spec_used().len() + inst.spec_defined().len() <= 3,
{
}

/// The instructions name at most three virtual registers each.
pub proof fn lemma_all_vregs_len(insts: Seq<Inst>, m: int)
    requires
        0 <= m <= insts.len(),
    ensures
        vregs_before(insts, m).finite(),
        vregs_before(insts, m).len() <= 3 * m,
    decreases m,
{
    if m > 0 {
        lemma_all_vregs_len(insts, m - 1);
        let u = insts[m - 1].spec_used();
        let d = insts[m - 1].spec_defined();
        u.lemma_cardinality_of_set();
        d.lemma_cardinality_of_set();
        lemma_inst_vreg_count(insts[m - 1]);
        vstd::seq_lib::seq_to_set_is_finite(u);
        vstd::seq_lib::seq_to_set_is_finite(d);
        let a = vregs_before(insts, m - 1);
        vstd::set_lib::lemma_len_union(a, u.to_set());
        vstd::set_lib::lemma_len_union(a.union(u.to_set()), d.to_set());
    }
}


/// Instruction `j` of `insts` is the label `l`, and no later one is.
pub open spec fn labels_at(insts: Seq<Inst>, j: int, l: Seq<char>) -> bool {
    &&& 0 <= j < insts.len()
    &&& insts[j] matches Inst::Label(n) && n@ == l
    &&& forall|x: int| j < x < insts.len() ==> !(#[trigger] insts[x] matches Inst::Label(n) && n@ == l)
}

/// How control flows between the instructions that liveness and interference
/// are computed over: a conditional branch goes to the (last) instruction
/// carrying its label and also falls through to the next instruction; an
/// unconditional branch goes only to the instruction carrying its label; a
/// return goes nowhere; every other instruction goes to the next one.
pub proof fn lemma_instruction_flow(insts: Seq<Inst>, i: int)
    requires
        branches_resolved(insts),
        insts.len() <= usize::MAX,
        0 <= i < insts.len(),
    ensures
        insts[i] is BCond ==> inst_succs(insts)[i].len() == (if i + 1 < insts.len() { 2int } else { 1int })
            && labels_at(insts, inst_succs(insts)[i][0] as int, insts[i]->BCond_label@)
            && (i + 1 < insts.len() ==> inst_succs(insts)[i][1] == i + 1),
        insts[i] is B ==> inst_succs(insts)[i].len() == 1 && labels_at(insts, inst_succs(insts)[i][0] as int, insts[i]->B_label@),
        insts[i] is Ret ==> inst_succs(insts)[i].len() == 0,
        !(insts[i] is BCond || insts[i] is B || insts[i] is Ret) ==> inst_succs(insts)[i] == (if i + 1 < insts.len() {
            seq![(i + 1) as usize]
        } else {
            Seq::<usize>::empty()
        }),
{
    let labels = node_labels(insts);
    let m = label_map_of(labels);
    assert(insts[i].targets_known(m));
    assert(labels.len() == insts.len());
    match insts[i] {
        Inst::BCond { label, .. } => {
            lemma_label_map_key(labels, label@);
            let j = m[label@] as int;
            assert(labels[j] == insts[j].label_view());
            assert(inst_succs(insts)[i][0] == m[label@]);
            assert forall|x: int| j < x < insts.len() implies !(#[trigger] insts[x] matches Inst::Label(n) && n@ == label@) by {
                assert(labels[x] == insts[x].label_view());
            }
        },
        Inst::B { label } => {
            lemma_label_map_key(labels, label@);
            let j = m[label@] as int;
            assert(labels[j] == insts[j].label_view());
            assert(inst_succs(insts)[i][0] == m[label@]);
            assert forall|x: int| j < x < insts.len() implies !(#[trigger] insts[x] matches Inst::Label(n) && n@ == label@) by {
                assert(labels[x] == insts[x].label_view());
            }
        },
        _ => {},
    }
}

/// A register with every virtual register replaced by its colour.
pub open spec fn colored(coloring: Map<usize, u8>, r: Register) -> Register {
    match r {
        Register::Virtual(v) => Register::Physical(coloring[v]),
        _ => r,
    }
}

/// An operand with every virtual register replaced by its colour.
pub open spec fn colored_operand(coloring: Map<usize, u8>, o: Operand) -> Operand {
    match o {
        Operand::Register(r) => Operand::Register(colored(coloring, r)),
        Operand::Immediate(_) => o,
    }
}

/// An address with every virtual register replaced by its colour.
pub open spec fn colored_addr(coloring: Map<usize, u8>, a: Addr) -> Addr {
    match a {
        Addr::BaseOff { base, offset } => Addr::BaseOff { base: colored(coloring, base), offset },
        Addr::Global(_) => a,
    }
}

/// An index with every virtual register replaced by its colour.
pub open spec fn colored_index(coloring: Map<usize, u8>, i: IndexOperand) -> IndexOperand {
    match i {
        IndexOperand::Reg(r) => IndexOperand::Reg(colored(coloring, r)),
        IndexOperand::Imm(_) => i,
    }
}

/// An instruction with every virtual register replaced by its colour and
/// every other field (size, operation, immediate, offset, scale, label) kept.
pub open spec fn colored_inst(coloring: Map<usize, u8>, inst: Inst) -> Inst {
    match inst {
        Inst::Mov { size, dst, src } => Inst::Mov { size, dst: colored(coloring, dst), src: colored_operand(coloring, src) },
        Inst::BinOp { op, size, dst, lhs, rhs } => Inst::BinOp {
            op,
            size,
            dst: colored(coloring, dst),
            lhs: colored(coloring, lhs),
            rhs: colored_operand(coloring, rhs),
        },
        Inst::Cmp { size, lhs, rhs } => Inst::Cmp { size, lhs: colored(coloring, lhs), rhs: colored_operand(coloring, rhs) },
        Inst::Ldr { size, dst, addr } => Inst::Ldr { size, dst: colored(coloring, dst), addr: colored_addr(coloring, addr) },
        Inst::Str { size, src, addr } => Inst::Str { size, src: colored(coloring, src), addr: colored_addr(coloring, addr) },
        Inst::Lea { dst, addr } => Inst::Lea { dst: colored(coloring, dst), addr: colored_addr(coloring, addr) },
        Inst::Gep { dst, base, index, scale } => Inst::Gep {
            dst: colored(coloring, dst),
            base: colored(coloring, base),
            index: colored_index(coloring, index),
            scale,
        },
        _ => inst,
    }
}

/// Every virtual register of `inst` has a colour and no stack slot.
pub open spec fn regs_colored(coloring: Map<usize, u8>, slots: Map<usize, i64>, inst: Inst) -> bool {
    forall|v: usize|
        inst.spec_used().contains(v) || inst.spec_defined().contains(v) ==> coloring.contains_key(v) && !slots.contains_key(v)
}

proof fn lemma_rewrite_one_without_spills(coloring: Map<usize, u8>, slots: Map<usize, i64>, inst: Inst)
    requires
        regs_colored(coloring, slots, inst),
    ensures
        rewrite_output(coloring, slots, inst) == seq![colored_inst(coloring, inst)],
{
    match inst {
        Inst::Mov { size, dst, src } => {
            if let Register::Virtual(v) = dst {
                assert(inst.spec_defined()[0] == v);
                assert(inst.spec_defined().contains(v));
            }
            if let Operand::Register(Register::Virtual(v)) = src {
                assert(inst.spec_used()[0] == v);
                assert(inst.spec_used().contains(v));
            }
            assert(rewrite_output(coloring, slots, inst) =~= seq![colored_inst(coloring, inst)]);
        },
        Inst::BinOp { op, size, dst, lhs, rhs } => {
            if let Register::Virtual(v) = dst {
                assert(inst.spec_defined()[0] == v);
                assert(inst.spec_defined().contains(v));
            }
            if let Register::Virtual(v) = lhs {
                assert(inst.spec_used()[0] == v);
            }
            if let Operand::Register(Register::Virtual(v)) = rhs {
                assert(inst.spec_used()[reg_vregs_len(lhs)] == v);
            }
            assert(rewrite_output(coloring, slots, inst) =~= seq![colored_inst(coloring, inst)]);
        },
        Inst::Cmp { size, lhs, rhs } => {
            if let Register::Virtual(v) = lhs {
                assert(inst.spec_used()[0] == v);
            }
            if let Operand::Register(Register::Virtual(v)) = rhs {
                assert(inst.spec_used()[reg_vregs_len(lhs)] == v);
            }
            assert(rewrite_output(coloring, slots, inst) =~= seq![colored_inst(coloring, inst)]);
        },
        Inst::Ldr { size, dst, addr } => {
            if let Register::Virtual(v) = dst {
                assert(inst.spec_defined()[0] == v);
                assert(inst.spec_defined().contains(v));
            }
            if let Addr::BaseOff { base: Register::Virtual(v), .. } = addr {
                assert(inst.spec_used()[0] == v);
            }
            assert(rewrite_output(coloring, slots, inst) =~= seq![colored_inst(coloring, inst)]);
        },
        Inst::Str { size, src, addr } => {
            if let Register::Virtual(v) = src {
                assert(inst.spec_used()[0] == v);
            }
            if let Addr::BaseOff { base: Register::Virtual(v), .. } = addr {
                assert(inst.spec_used()[reg_vregs_len(src)] == v);
            }
            assert(rewrite_output(coloring, slots, inst) =~= seq![colored_inst(coloring, inst)]);
        },
        Inst::Lea { dst, addr } => {
            if let Register::Virtual(v) = dst {
                assert(inst.spec_defined()[0] == v);
                assert(inst.spec_defined().contains(v));
            }
            if let Addr::BaseOff { base: Register::Virtual(v), .. } = addr {
                assert(inst.spec_used()[0] == v);
            }
            assert(rewrite_output(coloring, slots, inst) =~= seq![colored_inst(coloring, inst)]);
        },
        Inst::Gep { dst, base, index, scale } => {
            if let Register::Virtual(v) = dst {
                assert(inst.spec_defined()[0] == v);
                assert(inst.spec_defined().contains(v));
            }
            if let Register::Virtual(v) = base {
                assert(inst.spec_used()[0] == v);
            }
            if let IndexOperand::Reg(Register::Virtual(v)) = index {
                assert(inst.spec_used()[reg_vregs_len(base)] == v);
            }
            assert(rewrite_output(coloring, slots, inst) =~= seq![colored_inst(coloring, inst)]);
        },
        _ => {},
    }
}

/// The number of virtual registers a register names.
pub open spec fn reg_vregs_len(r: Register) -> int {
    if r is Virtual { 1 } else { 0 }
}

/// Rewriting without spills: when every register of the instructions has a
/// colour and none a stack slot, each instruction becomes exactly one
/// instruction, itself with each virtual register replaced by its colour
/// and every other field unchanged.
pub proof fn lemma_rewrite_without_spills(coloring: Map<usize, u8>, slots: Map<usize, i64>, insts: Seq<Inst>)
    requires
        forall|i: int| 0 <= i < insts.len() ==> regs_colored(coloring, slots, #[trigger] insts[i]),
    ensures
        rewritten_seq(coloring, slots, insts) == insts.map_values(|inst: Inst| colored_inst(coloring, inst)),
    decreases insts.len(),
{
    if insts.len() > 0 {
        lemma_rewrite_without_spills(coloring, slots, insts.drop_last());
        lemma_rewrite_one_without_spills(coloring, slots, insts.last());
        assert(rewritten_seq(coloring, slots, insts) =~= insts.map_values(|inst: Inst| colored_inst(coloring, inst)));
    } else {
        assert(rewritten_seq(coloring, slots, insts) =~= insts.map_values(|inst: Inst| colored_inst(coloring, inst)));
    }
}

/// `b` has what `a` has as an immediate: the same immediate, or a register
/// where `a` has one.
pub open spec fn same_imm(a: Operand, b: Operand) -> bool {
    match (a, b) {
        (Operand::Immediate(x), Operand::Immediate(y)) => x == y,
        (Operand::Register(_), Operand::Register(_)) => true,
        _ => false,
    }
}

/// Two addresses at the same place up to the base register: the same offset,
/// or the same global.
pub open spec fn same_place(a: Addr, b: Addr) -> bool {
    match (a, b) {
        (Addr::BaseOff { offset: x, .. }, Addr::BaseOff { offset: y, .. }) => x == y,
        (Addr::Global(x), Addr::Global(y)) => x@ == y@,
        _ => false,
    }
}

/// `b` is an instruction of the kind of `a`, equal to it in every field that
/// is not a register: size, operation, immediates, offsets, globals, scale,
/// labels.
pub open spec fn same_fields(a: Inst, b: Inst) -> bool {
    match (a, b) {
        (Inst::Mov { size: s, src: o, .. }, Inst::Mov { size: t, src: p, .. }) => s == t && same_imm(o, p),
        (Inst::BinOp { op: f, size: s, rhs: o, .. }, Inst::BinOp { op: g, size: t, rhs: p, .. }) => f == g && s == t && same_imm(
            o,
            p,
        ),
        (Inst::Cmp { size: s, rhs: o, .. }, Inst::Cmp { size: t, rhs: p, .. }) => s == t && same_imm(o, p),
        (Inst::Ldr { size: s, addr: x, .. }, Inst::Ldr { size: t, addr: y, .. }) => s == t && same_place(x, y),
        (Inst::Str { size: s, addr: x, .. }, Inst::Str { size: t, addr: y, .. }) => s == t && same_place(x, y),
        (Inst::Lea { addr: x, .. }, Inst::Lea { addr: y, .. }) => same_place(x, y),
        (Inst::Gep { index: i, scale: s, .. }, Inst::Gep { index: j, scale: t, .. }) => s == t && match (i, j) {
            (IndexOperand::Imm(x), IndexOperand::Imm(y)) => x == y,
            (IndexOperand::Reg(_), IndexOperand::Reg(_)) => true,
            _ => false,
        },
        _ => a == b,
    }
}

/// `i` moves a value between a physical register and one of the stack slots.
pub open spec fn slot_access(slots: Map<usize, i64>, i: Inst) -> bool {
    match i {
        Inst::Ldr { dst: Register::Physical(_), addr: Addr::BaseOff { base: Register::Physical(29), offset }, .. } => exists|v: usize|
            slots.contains_key(v) && slots[v] == offset,
        Inst::Str { src: Register::Physical(_), addr: Addr::BaseOff { base: Register::Physical(29), offset }, .. } => exists|v: usize|
            slots.contains_key(v) && slots[v] == offset,
        _ => false,
    }
}

/// Every instruction of `out` moves a value to or from a stack slot, or is
/// of the kind of `inst` with the same non-register fields.
pub open spec fn keeps_fields(slots: Map<usize, i64>, inst: Inst, out: Seq<Inst>) -> bool {
    forall|k: int| 0 <= k < out.len() ==> same_fields(inst, #[trigger] out[k]) || slot_access(slots, out[k])
}

/// Some instruction of `out` is of the kind of `inst` with the same
/// non-register fields.
pub open spec fn has_same_fields(inst: Inst, out: Seq<Inst>) -> bool {
    exists|k: int| 0 <= k < out.len() && same_fields(inst, #[trigger] out[k])
}

proof fn lemma_keeps_concat(slots: Map<usize, i64>, inst: Inst, a: Seq<Inst>, b: Seq<Inst>)
    requires
        keeps_fields(slots, inst, a),
        keeps_fields(slots, inst, b),
    ensures
        keeps_fields(slots, inst, a + b),
        has_same_fields(inst, b) ==> has_same_fields(inst, a + b),
{
    assert forall|k: int| 0 <= k < (a + b).len() implies same_fields(inst, #[trigger] (a + b)[k]) || slot_access(slots, (a + b)[k]) by {
        if k < a.len() {
            assert((a + b)[k] == a[k]);
        } else {
            assert((a + b)[k] == b[k - a.len()]);
        }
    }
    if has_same_fields(inst, b) {
        let k = choose|k: int| 0 <= k < b.len() && same_fields(inst, #[trigger] b[k]);
        assert((a + b)[a.len() + k] == b[k]);
    }
}

proof fn lemma_slot_loads(slots: Map<usize, i64>, inst: Inst, r: Register, size: RegSize, scratch: u8)
    ensures
        keeps_fields(slots, inst, src_loads(slots, r, size, scratch)),
{
    if let Register::Virtual(v) = r {
        if slots.contains_key(v) {
            assert(slot_access(slots, src_loads(slots, r, size, scratch)[0]));
        }
    }
}

proof fn lemma_slot_operand_loads(slots: Map<usize, i64>, inst: Inst, o: Operand, size: RegSize, scratch: u8)
    ensures
        keeps_fields(slots, inst, src_operand_loads(slots, o, size, scratch)),
{
    if let Operand::Register(r) = o {
        lemma_slot_loads(slots, inst, r, size, scratch);
    }
}

proof fn lemma_addr_loads(coloring: Map<usize, u8>, slots: Map<usize, i64>, inst: Inst, addr: Addr, scratch: u8)
    ensures
        keeps_fields(slots, inst, addr_loads(coloring, slots, addr, scratch)),
{
    if let Addr::BaseOff { base: Register::Virtual(v), .. } = addr {
        if !coloring.contains_key(v) && slots.contains_key(v) {
            assert(slot_access(slots, addr_loads(coloring, slots, addr, scratch)[0]));
        }
    }
}

/// The main instruction `main`, stored to the slot of `dst` through
/// `scratch` when `dst` lives in one.
proof fn lemma_through_slot(slots: Map<usize, i64>, inst: Inst, dst: Register, size: RegSize, scratch: u8, main: Inst)
    requires
        in_slot(slots, dst),
        same_fields(inst, main),
    ensures
        keeps_fields(slots, inst, through_slot(slots, dst, size, scratch, main)),
        has_same_fields(inst, through_slot(slots, dst, size, scratch, main)),
{
    let t = through_slot(slots, dst, size, scratch, main);
    assert(t[0] == main);
    assert(slot_access(slots, t[1]));
}

proof fn lemma_one(slots: Map<usize, i64>, inst: Inst, main: Inst)
    requires
        same_fields(inst, main),
    ensures
        keeps_fields(slots, inst, seq![main]),
        has_same_fields(inst, seq![main]),
{
    assert(seq![main][0] == main);
}

/// Rewriting keeps what an instruction does: every instruction that one
/// becomes either moves a value to or from a stack slot, or is of the
/// original's kind with all its non-register fields (sizes, operation,
/// immediates, offsets, scale, labels) unchanged; and such an instruction is
/// there, except for a register copy into a register that lives in a slot,
/// which is just a store.
pub proof fn lemma_rewrite_keeps_fields(coloring: Map<usize, u8>, slots: Map<usize, i64>, inst: Inst)
    ensures
        keeps_fields(slots, inst, rewrite_output(coloring, slots, inst)),
        !(inst matches Inst::Mov { dst, src: Operand::Register(_), .. } && in_slot(slots, dst)) ==> has_same_fields(
            inst,
            rewrite_output(coloring, slots, inst),
        ),
{
    match inst {
        Inst::Mov { size, dst, src } => {
            let loads = src_operand_loads(slots, src, size, SCRATCH1);
            let op = src_operand(coloring, slots, src, SCRATCH1);
            lemma_slot_operand_loads(slots, inst, src, size, SCRATCH1);
            if in_slot(slots, dst) {
                let v = dst->Virtual_0;
                match op {
                    Operand::Immediate(i) => {
                        let tail = seq![
                            Inst::Mov { size, dst: Register::Physical(SCRATCH0), src: Operand::Immediate(i) },
                            slot_store(slots, v, size, SCRATCH0),
                        ];
                        assert(same_fields(inst, tail[0]));
                        assert(slot_access(slots, tail[1]));
                        lemma_keeps_concat(slots, inst, loads, tail);
                    },
                    Operand::Register(Register::Physical(n)) => {
                        let tail = seq![slot_store(slots, v, size, n)];
                        assert(slot_access(slots, tail[0]));
                        lemma_keeps_concat(slots, inst, loads, tail);
                    },
                    _ => {},
                }
            } else {
                lemma_one(slots, inst, Inst::Mov { size, dst: dst_reg(coloring, dst), src: op });
                lemma_keeps_concat(slots, inst, loads, seq![Inst::Mov { size, dst: dst_reg(coloring, dst), src: op }]);
            }
        },
        Inst::BinOp { op, size, dst, lhs, rhs } => {
            let l1 = src_loads(slots, lhs, size, SCRATCH0);
            let l2 = src_operand_loads(slots, rhs, size, SCRATCH1);
            lemma_slot_loads(slots, inst, lhs, size, SCRATCH0);
            lemma_slot_operand_loads(slots, inst, rhs, size, SCRATCH1);
            lemma_keeps_concat(slots, inst, l1, l2);
            let l = src_reg(coloring, slots, lhs, SCRATCH0);
            let r = src_operand(coloring, slots, rhs, SCRATCH1);
            if in_slot(slots, dst) {
                let main = Inst::BinOp { op, size, dst: Register::Physical(SCRATCH0), lhs: l, rhs: r };
                lemma_through_slot(slots, inst, dst, size, SCRATCH0, main);
                lemma_keeps_concat(slots, inst, l1 + l2, through_slot(slots, dst, size, SCRATCH0, main));
            } else {
                let main = Inst::BinOp { op, size, dst: dst_reg(coloring, dst), lhs: l, rhs: r };
                lemma_one(slots, inst, main);
                lemma_keeps_concat(slots, inst, l1 + l2, seq![main]);
            }
        },
        Inst::Cmp { size, lhs, rhs } => {
            let l1 = src_loads(slots, lhs, size, SCRATCH0);
            let l2 = src_operand_loads(slots, rhs, size, SCRATCH1);
            lemma_slot_loads(slots, inst, lhs, size, SCRATCH0);
            lemma_slot_operand_loads(slots, inst, rhs, size, SCRATCH1);
            lemma_keeps_concat(slots, inst, l1, l2);
            let main = Inst::Cmp { size, lhs: src_reg(coloring, slots, lhs, SCRATCH0), rhs: src_operand(coloring, slots, rhs, SCRATCH1) };
            lemma_one(slots, inst, main);
            lemma_keeps_concat(slots, inst, l1 + l2, seq![main]);
        },
        Inst::Ldr { size, dst, addr } => {
            let a = addr_after(coloring, addr, SCRATCH0);
            let sd = after_addr_scratch(coloring, addr);
            lemma_addr_loads(coloring, slots, inst, addr, SCRATCH0);
            if in_slot(slots, dst) {
                let main = Inst::Ldr { size, dst: Register::Physical(sd), addr: a };
                lemma_through_slot(slots, inst, dst, size, sd, main);
                lemma_keeps_concat(slots, inst, addr_loads(coloring, slots, addr, SCRATCH0), through_slot(slots, dst, size, sd, main));
            } else {
                let main = Inst::Ldr { size, dst: dst_reg(coloring, dst), addr: a };
                lemma_one(slots, inst, main);
                lemma_keeps_concat(slots, inst, addr_loads(coloring, slots, addr, SCRATCH0), seq![main]);
            }
        },
        Inst::Str { size, src, addr } => {
            let ss = after_addr_scratch(coloring, addr);
            lemma_addr_loads(coloring, slots, inst, addr, SCRATCH0);
            lemma_slot_loads(slots, inst, src, size, ss);
            lemma_keeps_concat(slots, inst, addr_loads(coloring, slots, addr, SCRATCH0), src_loads(slots, src, size, ss));
            let main = Inst::Str { size, src: src_reg(coloring, slots, src, ss), addr: addr_after(coloring, addr, SCRATCH0) };
            lemma_one(slots, inst, main);
            lemma_keeps_concat(
                slots,
                inst,
                addr_loads(coloring, slots, addr, SCRATCH0) + src_loads(slots, src, size, ss),
                seq![main],
            );
        },
        Inst::Lea { dst, addr } => {
            let a = addr_after(coloring, addr, SCRATCH0);
            let sd = after_addr_scratch(coloring, addr);
            lemma_addr_loads(coloring, slots, inst, addr, SCRATCH0);
            if in_slot(slots, dst) {
                let main = Inst::Lea { dst: Register::Physical(sd), addr: a };
                lemma_through_slot(slots, inst, dst, RegSize::X64, sd, main);
                lemma_keeps_concat(slots, inst, addr_loads(coloring, slots, addr, SCRATCH0), through_slot(slots, dst, RegSize::X64, sd, main));
            } else {
                let main = Inst::Lea { dst: dst_reg(coloring, dst), addr: a };
                lemma_one(slots, inst, main);
                lemma_keeps_concat(slots, inst, addr_loads(coloring, slots, addr, SCRATCH0), seq![main]);
            }
        },
        Inst::Gep { dst, base, index, scale } => {
            let b = src_reg(coloring, slots, base, SCRATCH0);
            let sc = if b == Register::Physical(SCRATCH0) {
                SCRATCH1
            } else {
                SCRATCH0
            };
            let (index_loads, idx) = match index {
                IndexOperand::Reg(r) => (src_loads(slots, r, RegSize::W32, sc), IndexOperand::Reg(src_reg(coloring, slots, r, sc))),
                IndexOperand::Imm(i) => (Seq::<Inst>::empty(), IndexOperand::Imm(i)),
            };
            lemma_slot_loads(slots, inst, base, RegSize::X64, SCRATCH0);
            match index {
                IndexOperand::Reg(r) => lemma_slot_loads(slots, inst, r, RegSize::W32, sc),
                IndexOperand::Imm(_) => {},
            }
            let pre = src_loads(slots, base, RegSize::X64, SCRATCH0);
            lemma_keeps_concat(slots, inst, pre, index_loads);
            if in_slot(slots, dst) {
                let main = Inst::Gep { dst: Register::Physical(sc), base: b, index: idx, scale };
                lemma_through_slot(slots, inst, dst, RegSize::X64, sc, main);
                lemma_keeps_concat(slots, inst, pre + index_loads, through_slot(slots, dst, RegSize::X64, sc, main));
            } else {
                let main = Inst::Gep { dst: dst_reg(coloring, dst), base: b, index: idx, scale };
                lemma_one(slots, inst, main);
                lemma_keeps_concat(slots, inst, pre + index_loads, seq![main]);
            }
        },
        _ => {
            lemma_one(slots, inst, inst);
        },
    }
}

/// The register an instruction writes, if it writes one.
pub open spec fn written_reg(inst: Inst) -> Option<Register> {
    match inst {
        Inst::Mov { dst, .. } => Some(dst),
        Inst::BinOp { dst, .. } => Some(dst),
        Inst::Ldr { dst, .. } => Some(dst),
        Inst::Lea { dst, .. } => Some(dst),
        Inst::Gep { dst, .. } => Some(dst),
        _ => None,
    }
}

/// The width at which an instruction writes its register: its own size, or
/// 64 bits for an address.
pub open spec fn written_size(inst: Inst) -> RegSize {
    match inst {
        Inst::Mov { size, .. } => size,
        Inst::BinOp { size, .. } => size,
        Inst::Ldr { size, .. } => size,
        _ => RegSize::X64,
    }
}

/// A result for a register that lives in a stack slot ends in that slot: the
/// rewritten instructions end with a store into the register's slot, at the
/// width the result was computed at, of a physical register; unless the
/// instruction copies a register, that register is the one the instruction
/// before the store writes.
pub proof fn lemma_spilled_result_stored(coloring: Map<usize, u8>, slots: Map<usize, i64>, inst: Inst, v: usize)
    requires
        written_reg(inst) == Some(Register::Virtual(v)),
        slots.contains_key(v),
        inst_ok(coloring, slots, inst),
    ensures
        ({
            let out = rewrite_output(coloring, slots, inst);
            &&& out.len() >= 1
            &&& out.last() matches Inst::Str { size, src: Register::Physical(r), addr } && size == written_size(inst) && addr
                == slot_addr(slots, v) && (!(inst matches Inst::Mov { src: Operand::Register(_), .. }) ==> out.len() >= 2
                && written_reg(out[out.len() - 2]) == Some(Register::Physical(r)))
        }),
{
    let out = rewrite_output(coloring, slots, inst);
    match inst {
        Inst::Mov { size, dst, src } => {
            assert(src != Operand::Register(Register::StackPointer));
            let loads = src_operand_loads(slots, src, size, SCRATCH1);
            match src_operand(coloring, slots, src, SCRATCH1) {
                Operand::Immediate(i) => {
                    assert(out == loads + seq![
                        Inst::Mov { size, dst: Register::Physical(SCRATCH0), src: Operand::Immediate(i) },
                        slot_store(slots, v, size, SCRATCH0),
                    ]);
                },
                Operand::Register(Register::Physical(n)) => {
                    assert(out == loads + seq![slot_store(slots, v, size, n)]);
                },
                _ => {},
            }
        },
        Inst::BinOp { op, size, dst, lhs, rhs } => {
            let loads = src_loads(slots, lhs, size, SCRATCH0) + src_operand_loads(slots, rhs, size, SCRATCH1);
            let main = Inst::BinOp {
                op,
                size,
                dst: Register::Physical(SCRATCH0),
                lhs: src_reg(coloring, slots, lhs, SCRATCH0),
                rhs: src_operand(coloring, slots, rhs, SCRATCH1),
            };
            assert(out == loads + through_slot(slots, dst, size, SCRATCH0, main));
            assert(out[out.len() - 2] == main);
        },
        Inst::Ldr { size, dst, addr } => {
            let sd = after_addr_scratch(coloring, addr);
            let main = Inst::Ldr { size, dst: Register::Physical(sd), addr: addr_after(coloring, addr, SCRATCH0) };
            assert(out == addr_loads(coloring, slots, addr, SCRATCH0) + through_slot(slots, dst, size, sd, main));
            assert(out[out.len() - 2] == main);
        },
        Inst::Lea { dst, addr } => {
            let sd = after_addr_scratch(coloring, addr);
            let main = Inst::Lea { dst: Register::Physical(sd), addr: addr_after(coloring, addr, SCRATCH0) };
            assert(out == addr_loads(coloring, slots, addr, SCRATCH0) + through_slot(slots, dst, RegSize::X64, sd, main));
            assert(out[out.len() - 2] == main);
        },
        Inst::Gep { dst, base, index, scale } => {
            let b = src_reg(coloring, slots, base, SCRATCH0);
            let sc = if b == Register::Physical(SCRATCH0) {
                SCRATCH1
            } else {
                SCRATCH0
            };
            let (index_loads, idx) = match index {
                IndexOperand::Reg(r) => (src_loads(slots, r, RegSize::W32, sc), IndexOperand::Reg(src_reg(coloring, slots, r, sc))),
                IndexOperand::Imm(i) => (Seq::<Inst>::empty(), IndexOperand::Imm(i)),
            };
            let main = Inst::Gep { dst: Register::Physical(sc), base: b, index: idx, scale };
            assert(out == src_loads(slots, base, RegSize::X64, SCRATCH0) + index_loads + through_slot(slots, dst, RegSize::X64, sc, main));
            assert(out[out.len() - 2] == main);
        },
        _ => {},
    }
}

/// A register that lives in a stack slot is read from that slot: for each
/// such register that an instruction reads, the rewritten instructions load
/// its slot into a physical register.
pub proof fn lemma_spilled_source_loaded(coloring: Map<usize, u8>, slots: Map<usize, i64>, inst: Inst, v: usize)
    requires
        inst.spec_used().contains(v),
        slots.contains_key(v),
        !coloring.contains_key(v) || !(inst is Ldr || inst is Str || inst is Lea),
    ensures
        exists|k: int|
            0 <= k < rewrite_output(coloring, slots, inst).len() && (#[trigger] rewrite_output(coloring, slots, inst)[k] matches Inst::Ldr {
                dst: Register::Physical(_),
                addr,
                ..
            } && addr == slot_addr(slots, v)),
{
    let out = rewrite_output(coloring, slots, inst);
    let u = inst.spec_used();
    let k = choose|k: int| 0 <= k < u.len() && u[k] == v;
    match inst {
        Inst::Mov { size, dst, src } => {
            assert(out[0] == Inst::Ldr { size, dst: Register::Physical(SCRATCH1), addr: slot_addr(slots, v) });
        },
        Inst::BinOp { op, size, dst, lhs, rhs } => {
            if lhs == Register::Virtual(v) {
                assert(out[0] == Inst::Ldr { size, dst: Register::Physical(SCRATCH0), addr: slot_addr(slots, v) });
            } else {
                let l1 = src_loads(slots, lhs, size, SCRATCH0);
                assert(rhs == Operand::Register(Register::Virtual(v)));
                assert(out[l1.len() as int] == Inst::Ldr { size, dst: Register::Physical(SCRATCH1), addr: slot_addr(slots, v) });
            }
        },
        Inst::Cmp { size, lhs, rhs } => {
            if lhs == Register::Virtual(v) {
                assert(out[0] == Inst::Ldr { size, dst: Register::Physical(SCRATCH0), addr: slot_addr(slots, v) });
            } else {
                let l1 = src_loads(slots, lhs, size, SCRATCH0);
                assert(rhs == Operand::Register(Register::Virtual(v)));
                assert(out[l1.len() as int] == Inst::Ldr { size, dst: Register::Physical(SCRATCH1), addr: slot_addr(slots, v) });
            }
        },
        Inst::Ldr { size, dst, addr } => {
            assert(out[0] == Inst::Ldr { size: RegSize::X64, dst: Register::Physical(SCRATCH0), addr: slot_addr(slots, v) });
        },
        Inst::Lea { dst, addr } => {
            assert(out[0] == Inst::Ldr { size: RegSize::X64, dst: Register::Physical(SCRATCH0), addr: slot_addr(slots, v) });
        },
        Inst::Str { size, src, addr } => {
            let a = addr_loads(coloring, slots, addr, SCRATCH0);
            let ss = after_addr_scratch(coloring, addr);
            if src == Register::Virtual(v) {
                assert(out[a.len() as int] == Inst::Ldr { size, dst: Register::Physical(ss), addr: slot_addr(slots, v) });
            } else {
                assert(out[0] == Inst::Ldr { size: RegSize::X64, dst: Register::Physical(SCRATCH0), addr: slot_addr(slots, v) });
            }
        },
        Inst::Gep { dst, base, index, scale } => {
            let b = src_reg(coloring, slots, base, SCRATCH0);
            let sc = if b == Register::Physical(SCRATCH0) {
                SCRATCH1
            } else {
                SCRATCH0
            };
            if base == Register::Virtual(v) {
                assert(out[0] == Inst::Ldr { size: RegSize::X64, dst: Register::Physical(SCRATCH0), addr: slot_addr(slots, v) });
            } else {
                let pre = src_loads(slots, base, RegSize::X64, SCRATCH0);
                assert(index == IndexOperand::Reg(Register::Virtual(v)));
                assert(out[pre.len() as int] == Inst::Ldr { size: RegSize::W32, dst: Register::Physical(sc), addr: slot_addr(slots, v) });
            }
        },
        _ => {},
    }
}

} // verus!
