use vstd::prelude::*;
use crate::common::graph::{succs_in_range, Graph};

verus! {

broadcast use vstd::seq_lib::group_seq_properties;

// ---------------------------------------------------------------------------
// Reachability from the entry node
// ---------------------------------------------------------------------------

/// `reach` marks the entry node (when there is one) and every successor of
/// every marked node.
pub open spec fn reach_closed(reach: Seq<bool>, succs: Seq<Seq<usize>>) -> bool {
    &&& reach.len() == succs.len()
    &&& succs.len() > 0 ==> reach[0]
    &&& forall|u: int, k: int|
        0 <= u < succs.len() && reach[u] && 0 <= k < succs[u].len() ==> reach[#[trigger] succs[u][k] as int]
}

/// `reach` marks only nodes that every closed marking marks: it is the set
/// of nodes reachable from the entry.
pub open spec fn reach_least(reach: Seq<bool>, succs: Seq<Seq<usize>>) -> bool {
    forall|q: Seq<bool>, v: int|
        #![trigger reach_closed(q, succs), reach[v]]
        reach_closed(q, succs) && 0 <= v < succs.len() && reach[v] ==> q[v]
}

/// The number of `true` entries of `s`.
pub open spec fn count_true(s: Seq<bool>) -> nat
    decreases s.len(),
{
    if s.len() == 0 {
        0
    } else {
        count_true(s.drop_last()) + if s.last() {
            1nat
        } else {
            0nat
        }
    }
}

pub proof fn lemma_count_true_bound(s: Seq<bool>)
    ensures
        count_true(s) <= s.len(),
    decreases s.len(),
{
    if s.len() > 0 {
        lemma_count_true_bound(s.drop_last());
    }
}

pub proof fn lemma_count_true_none(s: Seq<bool>)
    requires
        forall|j: int| 0 <= j < s.len() ==> !#[trigger] s[j],
    ensures
        count_true(s) == 0,
    decreases s.len(),
{
    if s.len() > 0 {
        lemma_count_true_none(s.drop_last());
    }
}

pub proof fn lemma_count_true_set(s: Seq<bool>, i: int)
    requires
        0 <= i < s.len(),
        !s[i],
    ensures
        count_true(s.update(i, true)) == count_true(s) + 1,
    decreases s.len(),
{
    let t = s.update(i, true);
    if i < s.len() - 1 {
        assert(t.drop_last() =~= s.drop_last().update(i, true));
        lemma_count_true_set(s.drop_last(), i);
    } else {
        assert(t.drop_last() =~= s.drop_last());
    }
}

/// The nodes reachable from node 0.
pub fn reachable_from_entry(graph: &Graph) -> (r: Vec<bool>)
    requires
        graph.wf(),
    ensures
        reach_closed(r@, graph.succ_seqs()),
        reach_least(r@, graph.succ_seqs()),
{
    let ghost succs = graph.succ_seqs();
    let n = graph.num_nodes();
    let mut reach: Vec<bool> = Vec::new();
    let mut i: usize = 0;
    while i < n
        invariant
            i <= n,
            n == succs.len(),
            reach@.len() == i,
            forall|j: int| 0 <= j < i ==> !#[trigger] reach@[j],
        decreases n - i,
    {
        reach.push(false);
        i += 1;
    }
    if n == 0 {
        return reach;
    }
    proof {
        lemma_count_true_none(reach@);
        lemma_count_true_set(reach@, 0);
    }
    reach.set(0, true);
    let mut stack: Vec<usize> = Vec::new();
    stack.push(0);
    while stack.len() > 0
        invariant
            graph.wf(),
            succs == graph.succ_seqs(),
            n == succs.len(),
            n > 0,
            reach@.len() == n,
            reach@[0],
            stack@.no_duplicates(),
            forall|k: int| 0 <= k < stack@.len() ==> (#[trigger] stack@[k]) < n && reach@[stack@[k] as int],
            // a marked node off the stack has all its successors marked
            forall|u: int, k: int|
                0 <= u < n && reach@[u] && !stack@.contains(u as usize) && 0 <= k < succs[u].len()
                    ==> reach@[#[trigger] succs[u][k] as int],
            // every marked node lies in every closed marking
            forall|q: Seq<bool>, v: int|
                #![trigger reach_closed(q, succs), reach@[v]]
                reach_closed(q, succs) && 0 <= v < n && reach@[v] ==> q[v],
            count_true(reach@) <= n,
        decreases 2 * (n - count_true(reach@)) + stack@.len(),
    {
        let u = stack.pop().unwrap();
        let ghost popped = stack@;
        let ghost reach_before = reach@;
        let ghost measure_before = 2 * (n - count_true(reach@)) + popped.len() + 1;
        proof {
            assert(!popped.contains(u)) by {
                let full = popped.push(u);
                if popped.contains(u) {
                    let j = choose|j: int| 0 <= j < popped.len() && popped[j] == u;
                    assert(full[j] == full[full.len() - 1]);
                }
            }
        }
        let succ = graph.successors(u);
        let mut k: usize = 0;
        while k < succ.len()
            invariant
                graph.wf(),
                succs == graph.succ_seqs(),
                n == succs.len(),
                u < n,
                succ@ == succs[u as int],
                k <= succ@.len(),
                reach@.len() == n,
                reach@[0],
                reach@[u as int],
                !popped.contains(u),
                stack@.no_duplicates(),
                popped.len() <= stack@.len(),
                stack@.subrange(0, popped.len() as int) == popped,
                forall|j: int| 0 <= j < stack@.len() ==> (#[trigger] stack@[j]) < n && reach@[stack@[j] as int],
                forall|j: int| 0 <= j < reach@.len() && reach_before[j] ==> #[trigger] reach@[j],
                forall|j: int| popped.len() <= j < stack@.len() ==> !reach_before[#[trigger] stack@[j] as int],
                forall|x: int, y: int|
                    0 <= x < n && reach@[x] && !stack@.contains(x as usize) && x != u && 0 <= y < succs[x].len()
                        ==> reach@[#[trigger] succs[x][y] as int],
                forall|j: int| 0 <= j < k ==> reach@[#[trigger] succ@[j] as int],
                forall|q: Seq<bool>, v: int|
                    #![trigger reach_closed(q, succs), reach@[v]]
                    reach_closed(q, succs) && 0 <= v < n && reach@[v] ==> q[v],
                count_true(reach@) <= n,
                2 * (n - count_true(reach@)) + stack@.len() < measure_before,
            decreases succ@.len() - k,
        {
            let s = succ[k];
            proof {
                assert(succs_in_range(succs));
                assert(s < n);
            }
            if !reach[s] {
                proof {
                    lemma_count_true_set(reach@, s as int);
                    lemma_count_true_bound(reach@.update(s as int, true));
                    assert forall|q: Seq<bool>, v: int|
                        #![trigger reach_closed(q, succs), reach@.update(s as int, true)[v]]
                        reach_closed(q, succs) && 0 <= v < n && reach@.update(s as int, true)[v] implies q[v] by {
                        if v == s as int {
                            assert(q[u as int]);
                            assert(succs[u as int][k as int] == s);
                        } else {
                            assert(reach@[v]);
                        }
                    }
                }
                reach.set(s, true);
                stack.push(s);
                proof {
                    assert(stack@.subrange(0, popped.len() as int) =~= popped);
                }
            }
            k += 1;
        }
        proof {
            assert forall|x: int, y: int|
                0 <= x < n && reach@[x] && !stack@.contains(x as usize) && 0 <= y < succs[x].len()
                    implies reach@[#[trigger] succs[x][y] as int] by {
                if x == u as int {
                    assert(succ@[y] == succs[x][y]);
                } else {
                }
            }
        }
    }
    reach
}

// ---------------------------------------------------------------------------
// Dominator sets
// ---------------------------------------------------------------------------

/// A row of `n` entries, all `true`.
pub open spec fn full_row(n: nat) -> Seq<bool> {
    Seq::new(n, |_i: int| true)
}

/// A row of `n` entries, `true` at `v` only.
pub open spec fn unit_row(n: nat, v: int) -> Seq<bool> {
    Seq::new(n, |i: int| i == v)
}

/// The entrywise conjunction of two rows.
pub open spec fn and_row(a: Seq<bool>, b: Seq<bool>) -> Seq<bool> {
    Seq::new(a.len(), |i: int| a[i] && b[i])
}

/// The intersection of the rows of the reachable nodes listed in `ps`, over `n` nodes.
pub open spec fn meet(rows: Seq<Seq<bool>>, ps: Seq<usize>, reach: Seq<bool>, n: nat) -> Seq<bool>
    decreases ps.len(),
{
    if ps.len() == 0 {
        full_row(n)
    } else {
        let m = meet(rows, ps.drop_last(), reach, n);
        if reach[ps.last() as int] {
            and_row(m, rows[ps.last() as int])
        } else {
            m
        }
    }
}

/// The right-hand side of the dominator equation of node `v`: the entry is
/// dominated by itself alone, an unreachable node too, and any other node by
/// itself and by whatever dominates all its reachable predecessors.
pub open spec fn dom_step(rows: Seq<Seq<bool>>, preds: Seq<Seq<usize>>, reach: Seq<bool>, v: int) -> Seq<bool> {
    let n = rows.len();
    if v == 0 || !reach[v] {
        unit_row(n, v)
    } else {
        meet(rows, preds[v], reach, n).update(v, true)
    }
}

/// `rows` solves the dominator equations: `rows[v][d]` says that `d` dominates `v`.
pub open spec fn dom_solution(rows: Seq<Seq<bool>>, preds: Seq<Seq<usize>>, reach: Seq<bool>) -> bool {
    &&& rows.len() == preds.len()
    &&& forall|v: int| 0 <= v < rows.len() ==> #[trigger] rows[v] == dom_step(rows, preds, reach, v)
}

/// `rows` holds every other solution: it is the greatest solution, the
/// dominance relation itself.
pub open spec fn dom_greatest(rows: Seq<Seq<bool>>, preds: Seq<Seq<usize>>, reach: Seq<bool>) -> bool {
    forall|e: Seq<Seq<bool>>, v: int, d: int|
        #![trigger dom_solution(e, preds, reach), rows[v][d]]
        dom_solution(e, preds, reach) && 0 <= v < rows.len() && 0 <= d < rows.len() && e[v][d] ==> rows[v][d]
}

/// Every row of `a` lies inside the matching row of `b`.
pub open spec fn rows_le(a: Seq<Seq<bool>>, b: Seq<Seq<bool>>, n: nat) -> bool {
    &&& a.len() == n
    &&& b.len() == n
    &&& forall|v: int| 0 <= v < n ==> (#[trigger] a[v]).len() == n && b[v].len() == n
    &&& forall|v: int, d: int| 0 <= v < n && 0 <= d < n && (#[trigger] a[v][d]) ==> b[v][d]
}

/// The rows of `rows` have `n` entries each.
pub open spec fn rows_sized(rows: Seq<Seq<bool>>, n: nat) -> bool {
    rows.len() == n && forall|v: int| 0 <= v < n ==> (#[trigger] rows[v]).len() == n
}

/// Every predecessor listed is a node.
pub open spec fn preds_in_range(preds: Seq<Seq<usize>>) -> bool {
    forall|v: int, k: int| 0 <= v < preds.len() && 0 <= k < preds[v].len() ==> #[trigger] preds[v][k] < preds.len()
}

proof fn lemma_meet_len(rows: Seq<Seq<bool>>, ps: Seq<usize>, reach: Seq<bool>, n: nat)
    ensures
        meet(rows, ps, reach, n).len() == n,
    decreases ps.len(),
{
    if ps.len() > 0 {
        lemma_meet_len(rows, ps.drop_last(), reach, n);
    }
}

proof fn lemma_meet_mono(a: Seq<Seq<bool>>, b: Seq<Seq<bool>>, ps: Seq<usize>, reach: Seq<bool>, n: nat)
    requires
        rows_le(a, b, n),
        forall|k: int| 0 <= k < ps.len() ==> #[trigger] ps[k] < n,
    ensures
        forall|d: int| 0 <= d < n && #[trigger] meet(a, ps, reach, n)[d] ==> meet(b, ps, reach, n)[d],
    decreases ps.len(),
{
    if ps.len() > 0 {
        lemma_meet_mono(a, b, ps.drop_last(), reach, n);
        lemma_meet_len(a, ps.drop_last(), reach, n);
        lemma_meet_len(b, ps.drop_last(), reach, n);
        let p = ps.last() as int;
        assert(ps[ps.len() - 1] < n);
        assert forall|d: int| 0 <= d < n && #[trigger] meet(a, ps, reach, n)[d] implies meet(b, ps, reach, n)[d] by {
            if reach[p] {
                assert(a[p][d]);
            }
        }
    }
}

proof fn lemma_step_mono(a: Seq<Seq<bool>>, b: Seq<Seq<bool>>, preds: Seq<Seq<usize>>, reach: Seq<bool>, v: int)
    requires
        rows_le(a, b, preds.len()),
        preds_in_range(preds),
        0 <= v < preds.len(),
    ensures
        dom_step(a, preds, reach, v).len() == preds.len(),
        dom_step(b, preds, reach, v).len() == preds.len(),
        forall|d: int| 0 <= d < preds.len() && #[trigger] dom_step(a, preds, reach, v)[d] ==> dom_step(b, preds, reach, v)[d],
{
    let n = preds.len();
    lemma_meet_len(a, preds[v], reach, n);
    lemma_meet_len(b, preds[v], reach, n);
    assert forall|k: int| 0 <= k < preds[v].len() implies #[trigger] preds[v][k] < n by {}
    lemma_meet_mono(a, b, preds[v], reach, n);
}

/// The sum of the `true` counts of all rows.
pub open spec fn total_true(rows: Seq<Seq<bool>>) -> nat
    decreases rows.len(),
{
    if rows.len() == 0 {
        0
    } else {
        total_true(rows.drop_last()) + count_true(rows.last())
    }
}

proof fn lemma_count_le(a: Seq<bool>, b: Seq<bool>)
    requires
        a.len() == b.len(),
        forall|i: int| 0 <= i < a.len() && #[trigger] a[i] ==> b[i],
    ensures
        count_true(a) <= count_true(b),
        a != b ==> count_true(a) < count_true(b),
    decreases a.len(),
{
    if a.len() > 0 {
        lemma_count_le(a.drop_last(), b.drop_last());
        if a != b {
            if a.drop_last() == b.drop_last() {
                assert(a.last() != b.last()) by {
                    if a.last() == b.last() {
                        assert forall|i: int| 0 <= i < a.len() implies a[i] == b[i] by {
                            if i < a.len() - 1 {
                                assert(a.drop_last()[i] == b.drop_last()[i]);
                            }
                        }
                        assert(a =~= b);
                    }
                }
            }
        }
    }
}

proof fn lemma_total_update(rows: Seq<Seq<bool>>, v: int, r: Seq<bool>)
    requires
        0 <= v < rows.len(),
    ensures
        total_true(rows.update(v, r)) + count_true(rows[v]) == total_true(rows) + count_true(r),
    decreases rows.len(),
{
    let u = rows.update(v, r);
    if v < rows.len() - 1 {
        assert(u.drop_last() =~= rows.drop_last().update(v, r));
        lemma_total_update(rows.drop_last(), v, r);
    } else {
        assert(u.drop_last() =~= rows.drop_last());
    }
}

/// The rows of a matrix of flags.
pub open spec fn rows_view(rows: Seq<Vec<bool>>) -> Seq<Seq<bool>> {
    rows.map_values(|r: Vec<bool>| r@)
}

fn unit_or_full(n: usize, v: usize, full: bool) -> (r: Vec<bool>)
    ensures
        r@ == (if full {
            full_row(n as nat)
        } else {
            unit_row(n as nat, v as int)
        }),
{
    let mut r: Vec<bool> = Vec::new();
    let mut i: usize = 0;
    while i < n
        invariant
            i <= n,
            r@ == (if full {
                full_row(n as nat)
            } else {
                unit_row(n as nat, v as int)
            }).take(i as int),
        decreases n - i,
    {
        r.push(full || i == v);
        i += 1;
        assert(r@ =~= (if full {
            full_row(n as nat)
        } else {
            unit_row(n as nat, v as int)
        }).take(i as int));
    }
    assert(r@ =~= (if full {
        full_row(n as nat)
    } else {
        unit_row(n as nat, v as int)
    }));
    r
}

fn meet_row(rows: &Vec<Vec<bool>>, ps: &[usize], reach: &Vec<bool>, n: usize) -> (r: Vec<bool>)
    requires
        rows_sized(rows_view(rows@), n as nat),
        reach@.len() == n,
        forall|k: int| 0 <= k < ps@.len() ==> #[trigger] ps@[k] < n,
    ensures
        r@ == meet(rows_view(rows@), ps@, reach@, n as nat),
{
    let ghost rv = rows_view(rows@);
    let mut m = unit_or_full(n, 0, true);
    let mut j: usize = 0;
    assert(ps@.take(0) =~= Seq::<usize>::empty());
    while j < ps.len()
        invariant
            j <= ps@.len(),
            rv == rows_view(rows@),
            rows_sized(rv, n as nat),
            reach@.len() == n,
            forall|k: int| 0 <= k < ps@.len() ==> #[trigger] ps@[k] < n,
            m@ == meet(rv, ps@.take(j as int), reach@, n as nat),
        decreases ps@.len() - j,
    {
        let p = ps[j];
        proof {
            assert(ps@.take(j as int + 1).drop_last() =~= ps@.take(j as int));
            lemma_meet_len(rv, ps@.take(j as int), reach@, n as nat);
        }
        if reach[p] {
            let row = &rows[p];
            assert(row@ == rv[p as int]);
            let mut d: usize = 0;
            let ghost m0 = m@;
            while d < n
                invariant
                    d <= n,
                    m0.len() == n,
                    row@.len() == n,
                    m@.len() == n,
                    forall|i: int| 0 <= i < d ==> #[trigger] m@[i] == (m0[i] && row@[i]),
                    forall|i: int| d <= i < n ==> #[trigger] m@[i] == m0[i],
                decreases n - d,
            {
                let b = m[d] && row[d];
                let ghost mb = m@;
                m.set(d, b);
                assert forall|i: int| 0 <= i < d + 1 implies #[trigger] m@[i] == (m0[i] && row@[i]) by {
                    if i < d {
                        assert(m@[i] == mb[i]);
                    }
                }
                d += 1;
            }
            assert(m@ =~= and_row(m0, row@));
        }
        j += 1;
    }
    assert(ps@.take(ps@.len() as int) =~= ps@);
    m
}

fn same_row(a: &Vec<bool>, b: &Vec<bool>) -> (r: bool)
    ensures
        r == (a@ == b@),
{
    if a.len() != b.len() {
        return false;
    }
    let mut i: usize = 0;
    while i < a.len()
        invariant
            i <= a@.len(),
            a@.len() == b@.len(),
            forall|j: int| 0 <= j < i ==> a@[j] == b@[j],
        decreases a@.len() - i,
    {
        if a[i] != b[i] {
            return false;
        }
        i += 1;
    }
    assert(a@ =~= b@);
    true
}

/// The dominator sets of a graph whose reachable nodes are `reach`:
/// `r[v][d]` says that `d` dominates `v`.  They solve the dominator
/// equations, and hold every other solution.
pub fn dominator_rows(graph: &Graph, reach: &Vec<bool>) -> (r: Vec<Vec<bool>>)
    requires
        graph.wf(),
        reach@.len() == graph.succ_seqs().len(),
    ensures
        rows_sized(rows_view(r@), graph.succ_seqs().len()),
        dom_solution(rows_view(r@), graph.pred_seqs(), reach@),
        dom_greatest(rows_view(r@), graph.pred_seqs(), reach@),
{
    let ghost preds = graph.pred_seqs();
    let n = graph.num_nodes();
    proof {
        assert forall|v: int, k: int| 0 <= v < preds.len() && 0 <= k < preds[v].len() implies #[trigger] preds[v][k]
            < preds.len() by {
            graph.lemma_preds(v, preds[v][k]);
        }
    }
    let mut rows: Vec<Vec<bool>> = Vec::new();
    let mut v: usize = 0;
    while v < n
        invariant
            v <= n,
            n == preds.len(),
            reach@.len() == n,
            rows@.len() == v,
            forall|w: int| 0 <= w < v ==> (#[trigger] rows@[w])@ == (if w != 0 && reach@[w] {
                full_row(n as nat)
            } else {
                unit_row(n as nat, w)
            }),
        decreases n - v,
    {
        rows.push(unit_or_full(n, v, v != 0 && reach[v]));
        v += 1;
    }
    proof {
        let rv = rows_view(rows@);
        assert forall|e: Seq<Seq<bool>>, w: int, d: int|
            dom_solution(e, preds, reach@) && 0 <= w < n && 0 <= d < n && e[w][d] implies rv[w][d] by {
            assert(e[w] == dom_step(e, preds, reach@, w));
            assert(rows@[w]@ == rv[w]);
        }
        assert forall|w: int| 0 <= w < n implies #[trigger] rv[w].len() == n by {
            assert(rows@[w]@ == rv[w]);
        }
        assert forall|w: int| 0 <= w < n implies dom_step(rv, preds, reach@, w).len() == n
            && forall|d: int| 0 <= d < n && #[trigger] dom_step(rv, preds, reach@, w)[d] ==> rv[w][d] by {
            assert(rows@[w]@ == rv[w]);
            lemma_meet_len(rv, preds[w], reach@, n as nat);
        }
    }
    let mut changed = true;
    while changed
        invariant
            graph.wf(),
            preds == graph.pred_seqs(),
            preds_in_range(preds),
            n == preds.len(),
            reach@.len() == n,
            rows_sized(rows_view(rows@), n as nat),
            // no equation asks for more than a row holds
            forall|w: int| 0 <= w < n ==> dom_step(rows_view(rows@), preds, reach@, w).len() == n
                && forall|d: int| 0 <= d < n && #[trigger] dom_step(rows_view(rows@), preds, reach@, w)[d] ==> rows_view(rows@)[w][d],
            // the rows of the entry and of unreachable nodes are settled
            forall|w: int| 0 <= w < n && (w == 0 || !reach@[w]) ==> #[trigger] rows_view(rows@)[w] == unit_row(n as nat, w),
            // every solution lies inside the rows
            forall|e: Seq<Seq<bool>>, w: int, d: int|
                #![trigger dom_solution(e, preds, reach@), rows_view(rows@)[w][d]]
                dom_solution(e, preds, reach@) && 0 <= w < n && 0 <= d < n && e[w][d] ==> rows_view(rows@)[w][d],
            !changed ==> dom_solution(rows_view(rows@), preds, reach@),
        decreases total_true(rows_view(rows@)) + if changed { 1nat } else { 0nat },
    {
        let ghost start_total = total_true(rows_view(rows@));
        changed = false;
        let ghost start_rows = rows_view(rows@);
        let mut v: usize = 1;
        while v < n
            invariant
                graph.wf(),
                preds == graph.pred_seqs(),
                preds_in_range(preds),
                n == preds.len(),
                1 <= v <= n || n == 0,
                reach@.len() == n,
                rows_sized(rows_view(rows@), n as nat),
                forall|w: int| 0 <= w < n ==> dom_step(rows_view(rows@), preds, reach@, w).len() == n
                    && forall|d: int| 0 <= d < n && #[trigger] dom_step(rows_view(rows@), preds, reach@, w)[d] ==> rows_view(rows@)[w][d],
                forall|w: int| 0 <= w < n && (w == 0 || !reach@[w]) ==> #[trigger] rows_view(rows@)[w] == unit_row(n as nat, w),
                forall|e: Seq<Seq<bool>>, w: int, d: int|
                    #![trigger dom_solution(e, preds, reach@), rows_view(rows@)[w][d]]
                    dom_solution(e, preds, reach@) && 0 <= w < n && 0 <= d < n && e[w][d] ==> rows_view(rows@)[w][d],
                !changed ==> rows_view(rows@) == start_rows,
                !changed ==> forall|w: int| 0 < w < v && w < n ==> #[trigger] rows_view(rows@)[w] == dom_step(rows_view(rows@), preds, reach@, w),
                changed ==> total_true(rows_view(rows@)) < start_total,
                !changed ==> total_true(rows_view(rows@)) == start_total,
            decreases n - v,
        {
            if reach[v] {
                let ghost before = rows_view(rows@);
                let preds_v = graph.predecessors(v);
                let mut new_row = meet_row(&rows, preds_v, reach, n);
                proof {
                    lemma_meet_len(before, preds[v as int], reach@, n as nat);
                }
                new_row.set(v, true);
                assert(new_row@ == dom_step(before, preds, reach@, v as int));
                if !same_row(&new_row, &rows[v]) {
                    let ghost nr = new_row@;
                    proof {
                        lemma_count_le(nr, before[v as int]);
                        lemma_total_update(before, v as int, nr);
                    }
                    rows.set(v, new_row);
                    proof {
                        let after = rows_view(rows@);
                        assert(after =~= before.update(v as int, nr));
                        assert(rows_le(after, before, n as nat)) by {
                            assert forall|w: int, d: int| 0 <= w < n && 0 <= d < n && (#[trigger] after[w][d]) implies before[w][d] by {
                                if w == v as int {
                                } else {
                                }
                            }
                        }
                        assert forall|w: int| 0 <= w < n implies dom_step(after, preds, reach@, w).len() == n
                            && forall|d: int| 0 <= d < n && #[trigger] dom_step(after, preds, reach@, w)[d] ==> after[w][d] by {
                            lemma_step_mono(after, before, preds, reach@, w);
                            lemma_step_mono(before, before, preds, reach@, w);
                            if w == v as int {
                                assert forall|d: int| 0 <= d < n && #[trigger] dom_step(after, preds, reach@, w)[d] implies after[w][d] by {
                                    assert(dom_step(before, preds, reach@, w)[d]);
                                }
                            } else {
                                assert forall|d: int| 0 <= d < n && #[trigger] dom_step(after, preds, reach@, w)[d] implies after[w][d] by {
                                    assert(dom_step(before, preds, reach@, w)[d]);
                                    assert(before[w][d]);
                                }
                            }
                        }
                        assert forall|e: Seq<Seq<bool>>, w: int, d: int|
                            dom_solution(e, preds, reach@) && 0 <= w < n && 0 <= d < n && e[w][d] implies after[w][d] by {
                            if w == v as int {
                                assert(rows_le(e, before, n as nat)) by {
                                    assert forall|x: int| 0 <= x < n implies (#[trigger] e[x]).len() == n && before[x].len() == n by {
                                        assert(e[x] == dom_step(e, preds, reach@, x));
                                        lemma_meet_len(e, preds[x], reach@, n as nat);
                                    }
                                    assert forall|x: int, y: int| 0 <= x < n && 0 <= y < n && (#[trigger] e[x][y]) implies before[x][y] by {
                                        assert(before[x][y]);
                                    }
                                }
                                lemma_step_mono(e, before, preds, reach@, w);
                                assert(e[w] == dom_step(e, preds, reach@, w));
                            } else {
                                assert(before[w][d]);
                            }
                        }
                    }
                    changed = true;
                }
            }
            v += 1;
        }
        proof {
            if !changed {
                let rv = rows_view(rows@);
                assert forall|w: int| 0 <= w < rv.len() implies #[trigger] rv[w] == dom_step(rv, preds, reach@, w) by {
                    if w == 0 || !reach@[w] {
                    }
                }
            }
        }
    }
    rows
}

// ---------------------------------------------------------------------------
// Dominator tree and dominance frontiers
// ---------------------------------------------------------------------------

/// Node `y` is in the dominance frontier of `b`: `b` dominates a reachable
/// predecessor of the reachable node `y` but does not strictly dominate `y`.
pub open spec fn in_frontier(rows: Seq<Seq<bool>>, preds: Seq<Seq<usize>>, reach: Seq<bool>, b: int, y: int) -> bool {
    &&& reach[y]
    &&& exists|k: int|
        0 <= k < preds[y].len() && reach[#[trigger] preds[y][k] as int] && rows[preds[y][k] as int][b]
    &&& !(rows[y][b] && b != y)
}

/// The immediate dominator that `v` takes: the strict dominator with the most
/// dominators, the first such node when several have as many.
pub open spec fn is_idom_choice(rows: Seq<Seq<bool>>, levels: Seq<nat>, v: int, d: int) -> bool {
    &&& 0 <= d < rows.len()
    &&& d != v
    &&& rows[v][d]
    &&& forall|x: int| 0 <= x < rows.len() && x != v && rows[v][x] ==> levels[x] <= #[trigger] levels[d]
}

/// `v` has an immediate dominator in the tree: an `is_idom_choice` with
/// fewer dominators than `v` itself.
pub open spec fn has_idom(rows: Seq<Seq<bool>>, levels: Seq<nat>, v: int) -> bool {
    exists|d: int| #[trigger] is_idom_choice(rows, levels, v, d) && levels[d] < levels[v]
}

/// The dominator sets of a graph, its dominator tree and its dominance frontiers.
pub struct DominatorInfo {
    reach: Vec<bool>,
    rows: Vec<Vec<bool>>,
    levels: Vec<usize>,
    children: Vec<Vec<usize>>,
    roots: Vec<usize>,
    frontier: Vec<Vec<usize>>,
}

impl DominatorInfo {
    /// Which nodes are reachable from the entry.
    pub closed spec fn spec_reach(&self) -> Seq<bool> {
        self.reach@
    }

    /// `spec_rows()[v][d]`: `d` dominates `v`.
    pub closed spec fn spec_rows(&self) -> Seq<Seq<bool>> {
        rows_view(self.rows@)
    }

    /// The number of dominators of each node.
    pub closed spec fn spec_levels(&self) -> Seq<nat> {
        self.levels@.map_values(|x: usize| x as nat)
    }

    /// The children of each node in the dominator tree.
    pub closed spec fn spec_children(&self) -> Seq<Seq<usize>> {
        self.children@.map_values(|c: Vec<usize>| c@)
    }

    /// The roots of the dominator tree: the nodes without a parent.
    pub closed spec fn spec_roots(&self) -> Seq<usize> {
        self.roots@
    }

    /// The dominance frontier of each node.
    pub closed spec fn spec_frontier(&self) -> Seq<Seq<usize>> {
        self.frontier@.map_values(|c: Vec<usize>| c@)
    }

    /// The number of nodes.
    pub open spec fn spec_len(&self) -> nat {
        self.spec_reach().len()
    }

    /// Shape facts: all tables cover the nodes, every listed node is a node,
    /// and a child has more dominators than its parent, at most one per node.
    pub open spec fn wf(&self) -> bool {
        let n = self.spec_len();
        &&& rows_sized(self.spec_rows(), n)
        &&& self.spec_levels().len() == n
        &&& self.spec_children().len() == n
        &&& self.spec_frontier().len() == n
        &&& forall|v: int| 0 <= v < n ==> #[trigger] self.spec_levels()[v] <= n
        &&& forall|b: int, k: int|
            0 <= b < n && 0 <= k < self.spec_children()[b].len() ==> #[trigger] self.spec_children()[b][k] < n
                && self.spec_levels()[b] < self.spec_levels()[self.spec_children()[b][k] as int]
        &&& forall|k: int| 0 <= k < self.spec_roots().len() ==> #[trigger] self.spec_roots()[k] < n
        &&& forall|b: int, k: int|
            0 <= b < n && 0 <= k < self.spec_frontier()[b].len() ==> #[trigger] self.spec_frontier()[b][k] < n
    }

    /// What the tables say of `graph`: the reachable nodes, the dominator
    /// sets (the greatest solution of the dominator equations), the
    /// frontiers, and a tree whose parent of each node is its immediate
    /// dominator.
    pub open spec fn describes(&self, graph: Graph) -> bool {
        let n = self.spec_len();
        let preds = graph.pred_seqs();
        let rows = self.spec_rows();
        let reach = self.spec_reach();
        &&& self.wf()
        &&& n == graph.succ_seqs().len()
        &&& reach_closed(reach, graph.succ_seqs())
        &&& reach_least(reach, graph.succ_seqs())
        &&& dom_solution(rows, preds, reach)
        &&& dom_greatest(rows, preds, reach)
        &&& forall|v: int| 0 <= v < n ==> #[trigger] self.spec_levels()[v] == count_true(rows[v])
        &&& forall|b: int, y: int|
            0 <= b < n && 0 <= y < n ==> (#[trigger] self.spec_frontier()[b].contains(y as usize) <==> in_frontier(
                rows,
                preds,
                reach,
                b,
                y,
            ))
        &&& forall|b: int| 0 <= b < n ==> (#[trigger] self.spec_frontier()[b]).no_duplicates()
        &&& forall|b: int, k: int|
            0 <= b < n && 0 <= k < self.spec_children()[b].len() ==> is_idom_choice(
                rows,
                self.spec_levels(),
                #[trigger] self.spec_children()[b][k] as int,
                b,
            )
        &&& forall|v: int| 0 <= v < n ==> (#[trigger] self.spec_roots().contains(v as usize) <==> !has_idom(rows, self.spec_levels(), v))
        &&& forall|v: int|
            0 <= v < n && has_idom(rows, self.spec_levels(), v) ==> exists|b: int, k: int|
                0 <= b < n && 0 <= k < self.spec_children()[b].len() && #[trigger] self.spec_children()[b][k] == v as usize
    }

    /// Computes the dominator information of `graph`, whose entry is node 0.
    pub fn compute(graph: &Graph) -> (r: Self)
        requires
            graph.wf(),
        ensures
            r.describes(*graph),
    {
        let n = graph.num_nodes();
        let ghost preds = graph.pred_seqs();
        let reach = reachable_from_entry(graph);
        let rows = dominator_rows(graph, &reach);
        let ghost rv = rows_view(rows@);
        proof {
            assert forall|v: int, k: int| 0 <= v < preds.len() && 0 <= k < preds[v].len() implies #[trigger] preds[v][k]
                < preds.len() by {
                graph.lemma_preds(v, preds[v][k]);
            }
        }
        // levels
        let mut levels: Vec<usize> = Vec::new();
        let mut v: usize = 0;
        while v < n
            invariant
                v <= n,
                n == rv.len(),
                rows_sized(rv, n as nat),
                rv == rows_view(rows@),
                levels@.len() == v,
                forall|w: int| 0 <= w < v ==> #[trigger] levels@[w] == count_true(rv[w]) && levels@[w] <= n,
            decreases n - v,
        {
            let row = &rows[v];
            assert(row@ == rv[v as int]);
            let mut c: usize = 0;
            let mut d: usize = 0;
            while d < n
                invariant
                    d <= n,
                    row@.len() == n,
                    c == count_true(row@.take(d as int)),
                    c <= d,
                decreases n - d,
            {
                assert(row@.take(d as int + 1).drop_last() =~= row@.take(d as int));
                if row[d] {
                    c += 1;
                }
                d += 1;
            }
            assert(row@.take(n as int) =~= row@);
            levels.push(c);
            v += 1;
        }
        let ghost lv = levels@.map_values(|x: usize| x as nat);
        // dominator tree
        let mut children: Vec<Vec<usize>> = Vec::new();
        let mut b: usize = 0;
        while b < n
            invariant
                b <= n,
                children@.len() == b,
                forall|j: int| 0 <= j < b ==> (#[trigger] children@[j])@.len() == 0,
            decreases n - b,
        {
            children.push(Vec::new());
            b += 1;
        }
        let mut roots: Vec<usize> = Vec::new();
        let mut v: usize = 0;
        while v < n
            invariant
                v <= n,
                n == rv.len(),
                rows_sized(rv, n as nat),
                rv == rows_view(rows@),
                levels@.len() == n,
                lv == levels@.map_values(|x: usize| x as nat),
                forall|w: int| 0 <= w < n ==> #[trigger] levels@[w] <= n,
                children@.len() == n,
                forall|x: int, k: int|
                    0 <= x < n && 0 <= k < children@[x]@.len() ==> #[trigger] children@[x]@[k] < n
                        && levels@[x] < levels@[children@[x]@[k] as int]
                        && is_idom_choice(rv, lv, children@[x]@[k] as int, x),
                forall|k: int| 0 <= k < roots@.len() ==> #[trigger] roots@[k] < v,
                forall|w: int| 0 <= w < v ==> (#[trigger] roots@.contains(w as usize) <==> !has_idom(rv, lv, w)),
                forall|w: int|
                    0 <= w < v && has_idom(rv, lv, w) ==> exists|b: int, k: int|
                        0 <= b < n && 0 <= k < children@[b]@.len() && #[trigger] children@[b]@[k] == w as usize,
            decreases n - v,
        {
            let row = &rows[v];
            assert(row@ == rv[v as int]);
            let mut best: Option<usize> = None;
            let mut d: usize = 0;
            while d < n
                invariant
                    d <= n,
                    v < n,
                    n == rv.len(),
                    row@ == rv[v as int],
                    row@.len() == n,
                    levels@.len() == n,
                    lv == levels@.map_values(|x: usize| x as nat),
                    best matches Some(x) ==> x < d && x != v && rv[v as int][x as int] && forall|y: int|
                        0 <= y < d && y != v && rv[v as int][y] ==> lv[y] <= #[trigger] lv[x as int],
                    best is None ==> forall|y: int| 0 <= y < d && y != v ==> !#[trigger] rv[v as int][y],
                decreases n - d,
            {
                if d != v && row[d] {
                    match best {
                        Some(x) => {
                            if levels[d] > levels[x] {
                                best = Some(d);
                            }
                        },
                        None => {
                            best = Some(d);
                        },
                    }
                }
                d += 1;
            }
            match best {
                Some(x) => {
                    if levels[x] < levels[v] {
                        let mut cv = children[x].clone();
                        proof {
                            assert(cv@ == children@[x as int]@);
                        }
                        cv.push(v);
                        let ghost before = children@;
                        children.set(x, cv);
                        proof {
                            assert(is_idom_choice(rv, lv, v as int, x as int));
                            assert forall|y: int, k: int|
                                0 <= y < n && 0 <= k < children@[y]@.len() implies #[trigger] children@[y]@[k] < n
                                    && levels@[y] < levels@[children@[y]@[k] as int]
                                    && is_idom_choice(rv, lv, children@[y]@[k] as int, y) by {
                                if y != x as int {
                                    assert(children@[y] == before[y]);
                                } else if k < before[y]@.len() {
                                    assert(children@[y]@[k] == before[y]@[k]);
                                }
                            }
                            assert(lv[x as int] < lv[v as int]);
                            assert(has_idom(rv, lv, v as int));
                            assert(!roots@.contains(v)) by {
                                if roots@.contains(v) {
                                    let k = choose|k: int| 0 <= k < roots@.len() && roots@[k] == v;
                                    assert(roots@[k] < v);
                                }
                            }
                            assert forall|w: int|
                                0 <= w < v + 1 && has_idom(rv, lv, w) implies exists|b: int, k: int|
                                    0 <= b < n && 0 <= k < children@[b]@.len() && #[trigger] children@[b]@[k] == w as usize by {
                                if w == v as int {
                                    let k = before[x as int]@.len() as int;
                                    assert(children@[x as int]@[k] == v);
                                } else {
                                    let (b, k) = choose|b: int, k: int|
                                        0 <= b < n && 0 <= k < before[b]@.len() && #[trigger] before[b]@[k] == w as usize;
                                    if b == x as int {
                                        assert(children@[b]@[k] == before[b]@[k]);
                                    } else {
                                        assert(children@[b] == before[b]);
                                    }
                                }
                            }
                        }
                    } else {
                        let ghost r0 = roots@;
                        roots.push(v);
                        proof {
                            assert(!has_idom(rv, lv, v as int)) by {
                                if has_idom(rv, lv, v as int) {
                                    let d = choose|d: int| #[trigger] is_idom_choice(rv, lv, v as int, d) && lv[d] < lv[v as int];
                                    assert(lv[x as int] <= lv[d]);
                                }
                            }
                            assert(roots@[r0.len() as int] == v);
                            assert forall|w: int| 0 <= w < v + 1 implies (#[trigger] roots@.contains(w as usize) <==> !has_idom(rv, lv, w)) by {
                                if w < v {
                                    if roots@.contains(w as usize) {
                                        let k = choose|k: int| 0 <= k < roots@.len() && roots@[k] == w as usize;
                                        if k < r0.len() {
                                            assert(r0[k] == w as usize);
                                        }
                                    }
                                    if r0.contains(w as usize) {
                                        let k = choose|k: int| 0 <= k < r0.len() && r0[k] == w as usize;
                                        assert(roots@[k] == w as usize);
                                    }
                                }
                            }
                        }
                    }
                },
                None => {
                    let ghost r0 = roots@;
                    roots.push(v);
                    proof {
                        assert(!has_idom(rv, lv, v as int)) by {
                            if has_idom(rv, lv, v as int) {
                                let d = choose|d: int| #[trigger] is_idom_choice(rv, lv, v as int, d) && lv[d] < lv[v as int];
                                assert(rv[v as int][d]);
                            }
                        }
                        assert(roots@[r0.len() as int] == v);
                        assert forall|w: int| 0 <= w < v + 1 implies (#[trigger] roots@.contains(w as usize) <==> !has_idom(rv, lv, w)) by {
                            if w < v {
                                if roots@.contains(w as usize) {
                                    let k = choose|k: int| 0 <= k < roots@.len() && roots@[k] == w as usize;
                                    if k < r0.len() {
                                        assert(r0[k] == w as usize);
                                    }
                                }
                                if r0.contains(w as usize) {
                                    let k = choose|k: int| 0 <= k < r0.len() && r0[k] == w as usize;
                                    assert(roots@[k] == w as usize);
                                }
                            }
                        }
                    }
                },
            }
            v += 1;
        }
        // dominance frontiers
        let mut frontier: Vec<Vec<usize>> = Vec::new();
        let mut b: usize = 0;
        while b < n
            invariant
                b <= n,
                graph.wf(),
                preds == graph.pred_seqs(),
                n == preds.len(),
                preds_in_range(preds),
                n == rv.len(),
                rows_sized(rv, n as nat),
                rv == rows_view(rows@),
                reach@.len() == n,
                frontier@.len() == b,
                forall|x: int, y: int|
                    0 <= x < b && 0 <= y < n ==> (#[trigger] frontier@[x]@.contains(y as usize) <==> in_frontier(
                        rv,
                        preds,
                        reach@,
                        x,
                        y,
                    )),
                forall|x: int| 0 <= x < b ==> (#[trigger] frontier@[x]@).no_duplicates(),
                forall|x: int, k: int| 0 <= x < b && 0 <= k < frontier@[x]@.len() ==> #[trigger] frontier@[x]@[k] < n,
            decreases n - b,
        {
            let mut df: Vec<usize> = Vec::new();
            let mut y: usize = 0;
            while y < n
                invariant
                    y <= n,
                    b < n,
                    graph.wf(),
                    preds == graph.pred_seqs(),
                    n == preds.len(),
                    preds_in_range(preds),
                    n == rv.len(),
                    rows_sized(rv, n as nat),
                    rv == rows_view(rows@),
                    reach@.len() == n,
                    forall|z: int| 0 <= z < n ==> (#[trigger] df@.contains(z as usize) <==> (z < y && in_frontier(
                        rv,
                        preds,
                        reach@,
                        b as int,
                        z,
                    ))),
                    forall|k: int| 0 <= k < df@.len() ==> #[trigger] df@[k] < y,
                    df@.no_duplicates(),
                decreases n - y,
            {
                let mut hit = false;
                assert(rows@[y as int]@ == rv[y as int]);
                if reach[y] && !(rows[y][b] && b != y) {
                    let ps = graph.predecessors(y);
                    let mut k: usize = 0;
                    while k < ps.len()
                        invariant
                            k <= ps@.len(),
                            y < n,
                            b < n,
                            ps@ == preds[y as int],
                            n == preds.len(),
                            preds_in_range(preds),
                            rows_sized(rv, n as nat),
                            rv == rows_view(rows@),
                            reach@.len() == n,
                            hit == exists|j: int|
                                0 <= j < k && reach@[#[trigger] preds[y as int][j] as int] && rv[preds[y as int][j] as int][b as int],
                        decreases ps@.len() - k,
                    {
                        let p = ps[k];
                        assert(preds[y as int][k as int] == p);
                        assert(p < n);
                        assert(rows@[p as int]@ == rv[p as int]);
                        if reach[p] && rows[p][b] {
                            hit = true;
                        }
                        k += 1;
                    }
                }
                proof {
                    assert(rows@[y as int]@ == rv[y as int]);
                }
                if hit {
                    df.push(y);
                }
                proof {
                    assert forall|z: int| 0 <= z < n implies (#[trigger] df@.contains(z as usize) <==> (z < y + 1 && in_frontier(
                        rv,
                        preds,
                        reach@,
                        b as int,
                        z,
                    ))) by {
                        if z == y as int {
                            if hit {
                                assert(df@[df@.len() - 1] == y);
                            }
                        }
                    }
                }
                y += 1;
            }
            frontier.push(df);
            proof {
                assert forall|x: int, z: int|
                    0 <= x < b + 1 && 0 <= z < n implies (#[trigger] frontier@[x]@.contains(z as usize) <==> in_frontier(
                        rv,
                        preds,
                        reach@,
                        x,
                        z,
                    )) by {
                }
            }
            b += 1;
        }
        let r = DominatorInfo { reach, rows, levels, children, roots, frontier };
        proof {
            assert(r.spec_levels() == lv);
            assert(r.spec_rows() == rv);
            assert(r.spec_roots() == roots@);
            assert forall|w: int| 0 <= w < n implies (#[trigger] r.spec_roots().contains(w as usize) <==> !has_idom(rv, lv, w)) by {
            }
            assert forall|w: int|
                0 <= w < n && has_idom(rv, lv, w) implies exists|b: int, k: int|
                    0 <= b < n && 0 <= k < r.spec_children()[b].len() && #[trigger] r.spec_children()[b][k] == w as usize by {
                let (b, k) = choose|b: int, k: int|
                    0 <= b < n && 0 <= k < children@[b]@.len() && #[trigger] children@[b]@[k] == w as usize;
                assert(r.spec_children()[b] == children@[b]@);
            }
        }
        r
    }
}

impl DominatorInfo {
    /// Whether `a` dominates `b`.
    pub fn dominates(&self, a: usize, b: usize) -> (r: bool)
        requires
            self.wf(),
            a < self.spec_len(),
            b < self.spec_len(),
        ensures
            r == self.spec_rows()[b as int][a as int],
    {
        proof {
            assert(self.rows@[b as int]@ == self.spec_rows()[b as int]);
        }
        self.rows[b][a]
    }

    /// The dominance frontier of `b`.
    pub fn dominance_frontier(&self, b: usize) -> (r: &[usize])
        requires
            self.wf(),
            b < self.spec_len(),
        ensures
            r@ == self.spec_frontier()[b as int],
    {
        self.frontier[b].as_slice()
    }

    /// The children of `b` in the dominator tree.
    pub fn dom_children(&self, b: usize) -> (r: &[usize])
        requires
            self.wf(),
            b < self.spec_len(),
        ensures
            r@ == self.spec_children()[b as int],
    {
        self.children[b].as_slice()
    }

    /// The roots of the dominator tree: the entry and the nodes that no node
    /// strictly dominates.
    pub fn dom_tree_roots(&self) -> (r: Vec<usize>)
        ensures
            r@ == self.spec_roots(),
    {
        let mut out: Vec<usize> = Vec::new();
        let mut i: usize = 0;
        while i < self.roots.len()
            invariant
                i <= self.roots@.len(),
                out@ == self.roots@.take(i as int),
            decreases self.roots@.len() - i,
        {
            out.push(self.roots[i]);
            i += 1;
            assert(out@ =~= self.roots@.take(i as int));
        }
        assert(self.roots@.take(i as int) =~= self.roots@);
        out
    }

    /// How many dominators `v` has, itself included.
    pub fn level(&self, v: usize) -> (r: usize)
        requires
            self.wf(),
            v < self.spec_len(),
        ensures
            r == self.spec_levels()[v as int],
    {
        self.levels[v]
    }
}

} // verus!
