use vstd::prelude::*;

verus! {

broadcast use vstd::seq_lib::group_seq_properties;

// ---------------------------------------------------------------------------
// Specification helpers
// ---------------------------------------------------------------------------

/// Number of occurrences of `x` in `s`.
pub open spec fn count_in(s: Seq<usize>, x: usize) -> nat
    decreases s.len(),
{
    if s.len() == 0 {
        0
    } else {
        count_in(s.drop_last(), x) + if s.last() == x { 1nat } else { 0nat }
    }
}

/// `c` copies of `v`.
pub open spec fn repeat(v: usize, c: nat) -> Seq<usize> {
    Seq::new(c, |_j: int| v)
}

/// The predecessor list of node `s` built from the first `m` successor rows:
/// node `i` appears once for every occurrence of `s` in row `i`, rows in order.
pub open spec fn pred_list(succs: Seq<Seq<usize>>, s: usize, m: int) -> Seq<usize>
    decreases m,
{
    if m <= 0 {
        Seq::empty()
    } else {
        pred_list(succs, s, m - 1) + repeat((m - 1) as usize, count_in(succs[m - 1], s))
    }
}

proof fn lemma_count_in_concat(a: Seq<usize>, b: Seq<usize>, x: usize)
    ensures
        count_in(a + b, x) == count_in(a, x) + count_in(b, x),
    decreases b.len(),
{
    if b.len() > 0 {
        lemma_count_in_concat(a, b.drop_last(), x);
        assert((a + b).drop_last() =~= a + b.drop_last());
    }
}

proof fn lemma_count_in_repeat(v: usize, c: nat, x: usize)
    ensures
        count_in(repeat(v, c), x) == if v == x { c } else { 0 },
    decreases c,
{
    if c > 0 {
        lemma_count_in_repeat(v, (c - 1) as nat, x);
        assert(repeat(v, c).drop_last() =~= repeat(v, (c - 1) as nat));
    }
}

/// Node `i` occurs in the predecessor list of `s` built from the first `m`
/// rows once per occurrence of `s` in row `i`.
proof fn lemma_pred_list_count(succs: Seq<Seq<usize>>, s: usize, m: int, i: usize)
    requires
        m <= succs.len(),
        m <= usize::MAX,
    ensures
        count_in(pred_list(succs, s, m), i) == if (i as int) < m { count_in(succs[i as int], s) } else { 0 },
    decreases m,
{
    if m > 0 {
        lemma_pred_list_count(succs, s, m - 1, i);
        lemma_count_in_concat(pred_list(succs, s, m - 1), repeat((m - 1) as usize, count_in(succs[m - 1], s)), i);
        lemma_count_in_repeat((m - 1) as usize, count_in(succs[m - 1], s), i);
        assert(((m - 1) as usize) as int == m - 1);
    }
}

/// Every successor index of every row is a valid node index.
pub open spec fn succs_in_range(succs: Seq<Seq<usize>>) -> bool {
    forall|i: int, k: int|
        0 <= i < succs.len() && 0 <= k < succs[i].len() ==> #[trigger] succs[i][k] < succs.len()
}

/// The union of the sets `sets[j]` for every `j` listed in `idxs`.
pub open spec fn union_over(sets: Seq<Set<usize>>, idxs: Seq<usize>) -> Set<usize>
    decreases idxs.len(),
{
    if idxs.len() == 0 {
        Set::empty()
    } else {
        union_over(sets, idxs.drop_last()).union(sets[idxs.last() as int])
    }
}

/// The transfer function of a backward may-analysis: `gen ∪ (out − kill)`.
pub open spec fn flow(gen: Set<usize>, kill: Set<usize>, out: Set<usize>) -> Set<usize> {
    gen.union(out.difference(kill))
}

proof fn lemma_count_in_pos(s: Seq<usize>, x: usize)
    ensures
        (count_in(s, x) > 0) <==> s.contains(x),
    decreases s.len(),
{
    if s.len() > 0 {
        lemma_count_in_pos(s.drop_last(), x);
        if s.drop_last().contains(x) {
            let k = choose|k: int| 0 <= k < s.drop_last().len() && s.drop_last()[k] == x;
            assert(s[k] == x);
        }
        if s.contains(x) && s.last() != x {
            let k = choose|k: int| 0 <= k < s.len() && s[k] == x;
            assert(s.drop_last()[k] == x);
        }
    }
}

/// Membership in a predecessor list.
pub proof fn lemma_pred_list_contains(succs: Seq<Seq<usize>>, s: usize, m: int, p: usize)
    requires
        0 <= m <= succs.len(),
        succs.len() <= usize::MAX,
    ensures
        pred_list(succs, s, m).contains(p) <==> (p < m && succs[p as int].contains(s)),
    decreases m,
{
    if m > 0 {
        lemma_pred_list_contains(succs, s, m - 1, p);
        lemma_count_in_pos(succs[m - 1], s);
        let a = pred_list(succs, s, m - 1);
        let b = repeat((m - 1) as usize, count_in(succs[m - 1], s));
        if (a + b).contains(p) {
            let k = choose|k: int| 0 <= k < (a + b).len() && (a + b)[k] == p;
            if k < a.len() {
                assert(a[k] == p);
            } else {
                assert(b[k - a.len()] == p);
            }
        }
        if p < m && succs[p as int].contains(s) {
            if p < m - 1 {
                let k = choose|k: int| 0 <= k < a.len() && a[k] == p;
                assert((a + b)[k] == p);
            } else {
                assert(b[0] == p);
                assert((a + b)[a.len() as int] == p);
            }
        }
    }
}

proof fn lemma_pred_list_bounded(succs: Seq<Seq<usize>>, s: usize, m: int)
    requires
        0 <= m <= succs.len(),
        succs.len() <= usize::MAX,
    ensures
        forall|k: int|
            0 <= k < pred_list(succs, s, m).len() ==> #[trigger] pred_list(succs, s, m)[k] < m,
    decreases m,
{
    if m > 0 {
        lemma_pred_list_bounded(succs, s, m - 1);
        let a = pred_list(succs, s, m - 1);
        let b = repeat((m - 1) as usize, count_in(succs[m - 1], s));
        assert forall|k: int| 0 <= k < (a + b).len() implies #[trigger] (a + b)[k] < m by {
            if k < a.len() {
                assert(a[k] < m - 1);
            } else {
                assert(b[k - a.len()] == m - 1);
            }
        }
    }
}

/// `union_over` only reads the sets named by the index list.
pub proof fn lemma_union_over_agree(a: Seq<Set<usize>>, b: Seq<Set<usize>>, idxs: Seq<usize>)
    requires
        forall|k: int| 0 <= k < idxs.len() ==> a[idxs[k] as int] == b[idxs[k] as int],
    ensures
        union_over(a, idxs) == union_over(b, idxs),
    decreases idxs.len(),
{
    if idxs.len() > 0 {
        assert forall|k: int| 0 <= k < idxs.drop_last().len() implies a[idxs.drop_last()[k] as int]
            == b[idxs.drop_last()[k] as int] by {
            assert(idxs.drop_last()[k] == idxs[k]);
        }
        lemma_union_over_agree(a, b, idxs.drop_last());
        assert(a[idxs.last() as int] == b[idxs.last() as int]);
    }
}

/// `union_over` is monotone in the sets.
pub proof fn lemma_union_over_mono(a: Seq<Set<usize>>, b: Seq<Set<usize>>, idxs: Seq<usize>)
    requires
        forall|k: int| 0 <= k < idxs.len() ==> a[idxs[k] as int].subset_of(b[idxs[k] as int]),
    ensures
        union_over(a, idxs).subset_of(union_over(b, idxs)),
    decreases idxs.len(),
{
    if idxs.len() > 0 {
        assert forall|k: int| 0 <= k < idxs.drop_last().len() implies a[idxs.drop_last()[k] as int].subset_of(b[idxs.drop_last()[k] as int]) by {
            assert(idxs.drop_last()[k] == idxs[k]);
        }
        lemma_union_over_mono(a, b, idxs.drop_last());
        assert(a[idxs.last() as int].subset_of(b[idxs.last() as int]));
    }
}

/// `union_over` stays inside any set that contains all the named sets.
pub proof fn lemma_union_over_bounded(a: Seq<Set<usize>>, idxs: Seq<usize>, u: Set<usize>)
    requires
        forall|k: int| 0 <= k < idxs.len() ==> a[idxs[k] as int].subset_of(u),
    ensures
        union_over(a, idxs).subset_of(u),
    decreases idxs.len(),
{
    if idxs.len() > 0 {
        assert forall|k: int| 0 <= k < idxs.drop_last().len() implies a[idxs.drop_last()[k] as int].subset_of(u) by {
            assert(idxs.drop_last()[k] == idxs[k]);
        }
        lemma_union_over_bounded(a, idxs.drop_last(), u);
        assert(a[idxs.last() as int].subset_of(u));
    }
}

// ---------------------------------------------------------------------------
// Nodes of a control-flow graph
// ---------------------------------------------------------------------------

/// A map from a node's label to its index; where two nodes share a label,
/// the later one wins.
pub struct LabelMap {
    entries: Vec<(String, usize)>,
}

/// The label map of a sequence of optional labels: the last index of each label.
pub open spec fn label_map_of(labels: Seq<Option<Seq<char>>>) -> Map<Seq<char>, usize>
    decreases labels.len(),
{
    if labels.len() == 0 {
        Map::empty()
    } else {
        let m = label_map_of(labels.drop_last());
        match labels.last() {
            Some(k) => m.insert(k, (labels.len() - 1) as usize),
            None => m,
        }
    }
}

/// The map that a list of (label, index) entries denotes, later entries winning.
pub open spec fn entries_map(entries: Seq<(Seq<char>, usize)>) -> Map<Seq<char>, usize>
    decreases entries.len(),
{
    if entries.len() == 0 {
        Map::empty()
    } else {
        entries_map(entries.drop_last()).insert(entries.last().0, entries.last().1)
    }
}

impl LabelMap {
    pub closed spec fn entry_seq(&self) -> Seq<(Seq<char>, usize)> {
        self.entries@.map_values(|e: (String, usize)| (e.0@, e.1))
    }

    /// The map from label to node index.
    pub closed spec fn view_map(&self) -> Map<Seq<char>, usize> {
        entries_map(self.entry_seq())
    }

    /// An empty map.
    pub fn new() -> (r: Self)
        ensures
            r.view_map() == Map::<Seq<char>, usize>::empty(),
    {
        LabelMap { entries: Vec::new() }
    }

    /// Maps `key` to `idx`, replacing any earlier mapping of `key`.
    pub fn insert(&mut self, key: String, idx: usize)
        ensures
            final(self).view_map() == old(self).view_map().insert(key@, idx),
    {
        let ghost k = key@;
        self.entries.push((key, idx));
        assert(self.entry_seq().drop_last() =~= old(self).entry_seq());
        assert(self.entry_seq().last() == (k, idx));
    }

    /// The index of `key`, if it is mapped.
    pub fn get(&self, key: &String) -> (r: Option<usize>)
        ensures
            r == (if self.view_map().contains_key(key@) {
                Some(self.view_map()[key@])
            } else {
                None::<usize>
            }),
    {
        let mut j = self.entries.len();
        assert(self.entry_seq().take(j as int) =~= self.entry_seq());
        while j > 0
            invariant
                j <= self.entries.len(),
                forall|t: int|
                    j <= t < self.entries.len() ==> #[trigger] self.entry_seq()[t].0 != key@,
                entries_map(self.entry_seq()) == self.view_map(),
                self.view_map().contains_key(key@) ==> entries_map(
                    self.entry_seq().take(j as int),
                ).contains_key(key@) && entries_map(self.entry_seq().take(j as int))[key@]
                    == self.view_map()[key@],
                !self.view_map().contains_key(key@) ==> !entries_map(
                    self.entry_seq().take(j as int),
                ).contains_key(key@),
            decreases j,
        {
            let ghost pre = self.entry_seq().take(j as int);
            assert(pre.drop_last() =~= self.entry_seq().take(j - 1));
            let e = &self.entries[j - 1];
            assert(self.entry_seq()[j - 1] == (e.0@, e.1));
            if e.0 == *key {
                return Some(e.1);
            }
            j -= 1;
        }
        assert(self.entry_seq().take(0) =~= Seq::<(Seq<char>, usize)>::empty());
        None
    }
}

/// A node of a control-flow graph: it may carry a label, and knows where
/// control goes after it.
pub trait CfgNode: Sized {
    /// The node's label, if it has one.
    spec fn label_view(&self) -> Option<Seq<char>>;

    /// Whether every label that the node jumps to is a key of `map`.
    spec fn targets_known(&self, map: Map<Seq<char>, usize>) -> bool;

    /// The node's successors, given its index, the number of nodes and the label map.
    spec fn successor_view(&self, idx: int, num_nodes: int, map: Map<Seq<char>, usize>) -> Seq<
        usize,
    >;

    fn label(&self) -> (r: Option<String>)
        ensures
            r.is_some() == self.label_view().is_some(),
            r matches Some(s) ==> self.label_view() == Some(s@),
    ;

    fn successors(&self, idx: usize, num_nodes: usize, label_map: &LabelMap) -> (r: Vec<usize>)
        requires
            idx < num_nodes,
            self.targets_known(label_map.view_map()),
            forall|k: Seq<char>| #[trigger]
                label_map.view_map().contains_key(k) ==> label_map.view_map()[k] < num_nodes,
        ensures
            r@ == self.successor_view(idx as int, num_nodes as int, label_map.view_map()),
            forall|k: int| 0 <= k < r@.len() ==> #[trigger] r@[k] < num_nodes,
    ;
}

/// The labels of a sequence of nodes.
pub open spec fn node_labels<N: CfgNode>(nodes: Seq<N>) -> Seq<Option<Seq<char>>> {
    nodes.map_values(|n: N| n.label_view())
}

/// A label's entry in the map names the last node that carries that label.
pub proof fn lemma_label_map_key(labels: Seq<Option<Seq<char>>>, k: Seq<char>)
    requires
        label_map_of(labels).contains_key(k),
        labels.len() <= usize::MAX,
    ensures
        label_map_of(labels)[k] < labels.len(),
        labels[label_map_of(labels)[k] as int] == Some(k),
        forall|j: int| label_map_of(labels)[k] < j < labels.len() ==> labels[j] != Some(k),
    decreases labels.len(),
{
    if labels.len() > 0 {
        match labels.last() {
            Some(j) => {
                if j != k {
                    lemma_label_map_key(labels.drop_last(), k);
                    assert forall|x: int| label_map_of(labels)[k] < x < labels.len() implies labels[x] != Some(k) by {
                        if x < labels.len() - 1 {
                            assert(labels.drop_last()[x] == labels[x]);
                        }
                    }
                }
            },
            None => {
                lemma_label_map_key(labels.drop_last(), k);
                assert forall|x: int| label_map_of(labels)[k] < x < labels.len() implies labels[x] != Some(k) by {
                    if x < labels.len() - 1 {
                        assert(labels.drop_last()[x] == labels[x]);
                    }
                }
            },
        }
    }
}

proof fn lemma_label_map_bounded(labels: Seq<Option<Seq<char>>>)
    requires
        labels.len() <= usize::MAX,
    ensures
        forall|k: Seq<char>| #[trigger]
            label_map_of(labels).contains_key(k) ==> label_map_of(labels)[k] < labels.len(),
    decreases labels.len(),
{
    if labels.len() > 0 {
        lemma_label_map_bounded(labels.drop_last());
        let m = label_map_of(labels.drop_last());
        assert forall|k: Seq<char>| #[trigger]
            label_map_of(labels).contains_key(k) implies label_map_of(labels)[k] < labels.len() by {
            if m.contains_key(k) {
                assert(m[k] < labels.len() - 1);
            }
        }
    }
}

// ---------------------------------------------------------------------------
// Graph
// ---------------------------------------------------------------------------

/// A directed graph over nodes `0..n`, with successor and predecessor lists.
pub struct Graph {
    succs: Vec<Vec<usize>>,
    preds: Vec<Vec<usize>>,
}

impl Graph {
    /// The successor lists.
    pub closed spec fn succ_seqs(&self) -> Seq<Seq<usize>> {
        self.succs@.map_values(|v: Vec<usize>| v@)
    }

    /// The predecessor lists.
    pub closed spec fn pred_seqs(&self) -> Seq<Seq<usize>> {
        self.preds@.map_values(|v: Vec<usize>| v@)
    }

    /// Every successor is a node, and the predecessor list of each node `s` lists
    /// each node `i` once per edge `i -> s`, in increasing order of `i`.
    pub open spec fn wf(&self) -> bool {
        &&& self.succ_seqs().len() <= usize::MAX
        &&& self.pred_seqs().len() == self.succ_seqs().len()
        &&& succs_in_range(self.succ_seqs())
        &&& forall|s: int|
            0 <= s < self.succ_seqs().len() ==> #[trigger] self.pred_seqs()[s] == pred_list(
                self.succ_seqs(),
                s as usize,
                self.succ_seqs().len() as int,
            )
    }

    /// In a well-formed graph, `p` is a predecessor of `s` exactly when `s` is a
    /// successor of `p`, and predecessors are nodes.
    pub proof fn lemma_preds(&self, s: int, p: usize)
        requires
            self.wf(),
            0 <= s < self.succ_seqs().len(),
        ensures
            self.pred_seqs()[s].contains(p) <==> (p < self.succ_seqs().len()
                && self.succ_seqs()[p as int].contains(s as usize)),
            forall|k: int|
                0 <= k < self.pred_seqs()[s].len() ==> #[trigger] self.pred_seqs()[s][k]
                    < self.succ_seqs().len(),
    {
        let n = self.succ_seqs().len() as int;
        lemma_pred_list_contains(self.succ_seqs(), s as usize, n, p);
        lemma_pred_list_bounded(self.succ_seqs(), s as usize, n);
    }

    /// In a well-formed graph, node `p` occurs in the predecessor list of
    /// `s` exactly as often as `s` occurs in the successor list of `p`.
    pub proof fn lemma_pred_counts(&self, s: int, p: usize)
        requires
            self.wf(),
            0 <= s < self.succ_seqs().len(),
        ensures
            count_in(self.pred_seqs()[s], p) == if (p as int) < self.succ_seqs().len() {
                count_in(self.succ_seqs()[p as int], s as usize)
            } else {
                0
            },
    {
        lemma_pred_list_count(self.succ_seqs(), s as usize, self.succ_seqs().len() as int, p);
    }

    /// Builds the graph from its successor lists, computing the predecessor lists.
    pub fn new(succs: Vec<Vec<usize>>) -> (r: Self)
        requires
            succs_in_range(succs@.map_values(|v: Vec<usize>| v@)),
        ensures
            r.wf(),
            r.succ_seqs() == succs@.map_values(|v: Vec<usize>| v@),
    {
        let ghost ss = succs@.map_values(|v: Vec<usize>| v@);
        let n = succs.len();
        let mut preds: Vec<Vec<usize>> = Vec::new();
        let mut t: usize = 0;
        while t < n
            invariant
                t <= n,
                preds.len() == t,
                forall|j: int| 0 <= j < t ==> (#[trigger] preds@[j])@ == Seq::<usize>::empty(),
            decreases n - t,
        {
            preds.push(Vec::new());
            t += 1;
        }
        let mut i: usize = 0;
        while i < n
            invariant
                i <= n,
                n == succs.len(),
                ss == succs@.map_values(|v: Vec<usize>| v@),
                succs_in_range(ss),
                preds.len() == n,
                forall|s: int| 0 <= s < n ==> (#[trigger] preds@[s])@ == pred_list(ss, s as usize, i as int),
            decreases n - i,
        {
            let row = &succs[i];
            let mut k: usize = 0;
            while k < row.len()
                invariant
                    i < n,
                    n == succs.len(),
                    ss == succs@.map_values(|v: Vec<usize>| v@),
                    row@ == ss[i as int],
                    succs_in_range(ss),
                    k <= row.len(),
                    preds.len() == n,
                    forall|s: int|
                        0 <= s < n ==> (#[trigger] preds@[s])@ == pred_list(ss, s as usize, i as int)
                            + repeat(i, count_in(row@.take(k as int), s as usize)),
                decreases row.len() - k,
            {
                let s = row[k];
                assert(ss[i as int][k as int] < n);
                assert(row@.take(k + 1).drop_last() =~= row@.take(k as int));
                let ghost old_preds = preds@;
                preds[s].push(i);
                assert forall|t: int| 0 <= t < n implies (#[trigger] preds@[t])@ == pred_list(
                    ss,
                    t as usize,
                    i as int,
                ) + repeat(i, count_in(row@.take(k + 1), t as usize)) by {
                    if t == s {
                        assert(preds@[t]@ == old_preds[t]@.push(i));
                        assert(repeat(i, count_in(row@.take(k as int), t as usize)).push(i) =~= repeat(
                            i,
                            count_in(row@.take(k + 1), t as usize),
                        ));
                    } else {
                        assert(preds@[t] == old_preds[t]);
                    }
                }
                k += 1;
            }
            assert(row@.take(row.len() as int) =~= row@);
            assert forall|s: int| 0 <= s < n implies (#[trigger] preds@[s])@ == pred_list(
                ss,
                s as usize,
                i + 1,
            ) by {
                assert(pred_list(ss, s as usize, i + 1) == pred_list(ss, s as usize, i as int)
                    + repeat(i, count_in(ss[i as int], s as usize)));
            }
            i += 1;
        }
        let r = Graph { succs, preds };
        assert(r.succ_seqs() =~= ss);
        assert forall|s: int| 0 <= s < n implies #[trigger] r.pred_seqs()[s] == pred_list(
            r.succ_seqs(),
            s as usize,
            n as int,
        ) by {
            assert(r.pred_seqs()[s] == r.preds@[s]@);
        }
        r
    }

    /// Builds the control-flow graph of a sequence of nodes: labels are resolved
    /// through the map from each label to the last node that carries it.
    pub fn from_nodes<N: CfgNode>(nodes: &[N]) -> (r: Self)
        requires
            forall|i: int|
                0 <= i < nodes@.len() ==> (#[trigger] nodes@[i]).targets_known(
                    label_map_of(node_labels(nodes@)),
                ),
        ensures
            r.wf(),
            r.succ_seqs().len() == nodes@.len(),
            forall|i: int|
                0 <= i < nodes@.len() ==> #[trigger] r.succ_seqs()[i] == nodes@[i].successor_view(
                    i,
                    nodes@.len() as int,
                    label_map_of(node_labels(nodes@)),
                ),
    {
        let n = nodes.len();
        let ghost labels = node_labels(nodes@);
        let mut label_map = LabelMap::new();
        let mut i: usize = 0;
        while i < n
            invariant
                i <= n,
                n == nodes@.len(),
                labels == node_labels(nodes@),
                label_map.view_map() == label_map_of(labels.take(i as int)),
            decreases n - i,
        {
            assert(labels.take(i + 1).drop_last() =~= labels.take(i as int));
            assert(labels[i as int] == nodes@[i as int].label_view());
            if let Some(k) = nodes[i].label() {
                label_map.insert(k, i);
            }
            i += 1;
        }
        assert(labels.take(n as int) =~= labels);
        proof {
            lemma_label_map_bounded(labels);
        }
        let mut succs: Vec<Vec<usize>> = Vec::new();
        let mut i: usize = 0;
        while i < n
            invariant
                i <= n,
                n == nodes@.len(),
                labels == node_labels(nodes@),
                label_map.view_map() == label_map_of(labels),
                labels.len() == n,
                forall|k: Seq<char>| #[trigger]
                    label_map_of(labels).contains_key(k) ==> label_map_of(labels)[k] < labels.len(),
                forall|j: int|
                    0 <= j < nodes@.len() ==> (#[trigger] nodes@[j]).targets_known(
                        label_map_of(node_labels(nodes@)),
                    ),
                succs.len() == i,
                forall|j: int|
                    0 <= j < i ==> (#[trigger] succs@[j])@ == nodes@[j].successor_view(
                        j,
                        n as int,
                        label_map_of(labels),
                    ),
                forall|j: int, k: int|
                    0 <= j < i && 0 <= k < succs@[j]@.len() ==> #[trigger] succs@[j]@[k] < n,
            decreases n - i,
        {
            let row = nodes[i].successors(i, n, &label_map);
            succs.push(row);
            i += 1;
        }
        let ghost ss = succs@.map_values(|v: Vec<usize>| v@);
        assert forall|j: int, k: int|
            0 <= j < ss.len() && 0 <= k < ss[j].len() implies #[trigger] ss[j][k] < ss.len() by {
            assert(ss[j] == succs@[j]@);
        }
        let r = Self::new(succs);
        assert forall|j: int| 0 <= j < nodes@.len() implies #[trigger] r.succ_seqs()[j]
            == nodes@[j].successor_view(j, nodes@.len() as int, label_map_of(node_labels(nodes@))) by {
            assert(r.succ_seqs()[j] == ss[j]);
            assert(ss[j] == succs@[j]@);
        }
        r
    }

    /// The number of nodes.
    pub fn num_nodes(&self) -> (r: usize)
        ensures
            r == self.succ_seqs().len(),
    {
        self.succs.len()
    }

    /// The successors of `node`.
    pub fn successors(&self, node: usize) -> (r: &[usize])
        requires
            node < self.succ_seqs().len(),
        ensures
            r@ == self.succ_seqs()[node as int],
    {
        self.succs[node].as_slice()
    }

    /// The predecessors of `node`.
    pub fn predecessors(&self, node: usize) -> (r: &[usize])
        requires
            node < self.pred_seqs().len(),
        ensures
            r@ == self.pred_seqs()[node as int],
    {
        self.preds[node].as_slice()
    }

    /// All successor lists.
    pub fn succs_vec(&self) -> (r: &[Vec<usize>])
        ensures
            r@.map_values(|v: Vec<usize>| v@) == self.succ_seqs(),
    {
        self.succs.as_slice()
    }

    /// All predecessor lists.
    pub fn preds_vec(&self) -> (r: &[Vec<usize>])
        ensures
            r@.map_values(|v: Vec<usize>| v@) == self.pred_seqs(),
    {
        self.preds.as_slice()
    }
}

// ---------------------------------------------------------------------------
// Lattices and backward liveness
// ---------------------------------------------------------------------------

/// A join-semilattice of finite sets of virtual registers, with the transfer
/// function of a backward may-analysis.
pub trait Lattice: Sized {
    /// The set of registers that the value stands for.
    spec fn model(&self) -> Set<usize>;

    fn bottom() -> (r: Self)
        ensures
            r.model() == Set::<usize>::empty(),
    ;

    fn join(&mut self, other: &Self)
        ensures
            final(self).model() == old(self).model().union(other.model()),
    ;

    fn transfer(gen: &Self, kill: &Self, out: &Self) -> (r: Self)
        ensures
            r.model() == flow(gen.model(), kill.model(), out.model()),
    ;

    /// Whether two values stand for the same set.
    fn same(&self, other: &Self) -> (r: bool)
        ensures
            r == (self.model() == other.model()),
    ;

    proof fn lemma_model_finite(&self)
        ensures
            self.model().finite(),
    ;
}

impl Lattice for bool {
    /// `true` stands for the one-element set `{0}`.
    open spec fn model(&self) -> Set<usize> {
        if *self {
            Set::empty().insert(0usize)
        } else {
            Set::empty()
        }
    }

    fn bottom() -> (r: Self) {
        false
    }

    fn join(&mut self, other: &Self) {
        *self = *self || *other;
        assert(final(self).model() =~= old(self).model().union(other.model()));
    }

    fn transfer(gen: &Self, kill: &Self, out: &Self) -> (r: Self) {
        let r = *gen || (*out && !*kill);
        assert(r.model() =~= flow(gen.model(), kill.model(), out.model()));
        r
    }

    fn same(&self, other: &Self) -> (r: bool) {
        if *self != *other {
            assert(self.model().contains(0) != other.model().contains(0));
        }
        *self == *other
    }

    proof fn lemma_model_finite(&self) {
    }
}

/// A set of virtual registers, held as a list (duplicates are harmless).
#[derive(Clone)]
pub struct VregSet(pub Vec<usize>);

/// Whether `x` occurs in `v`.
pub fn vec_contains(v: &Vec<usize>, x: usize) -> (r: bool)
    ensures
        r == v@.contains(x),
{
    let mut k: usize = 0;
    while k < v.len()
        invariant
            k <= v.len(),
            forall|t: int| 0 <= t < k ==> v@[t] != x,
        decreases v.len() - k,
    {
        if v[k] == x {
            return true;
        }
        k += 1;
    }
    false
}

pub proof fn lemma_push_to_set(s: Seq<usize>, x: usize)
    ensures
        s.push(x).to_set() == s.to_set().insert(x),
{
    assert forall|y: usize| s.push(x).to_set().contains(y) <==> s.to_set().insert(x).contains(y) by {
        if s.push(x).contains(y) && y != x {
            let k = choose|k: int| 0 <= k < s.push(x).len() && s.push(x)[k] == y;
            assert(s[k] == y);
        }
        if s.contains(y) {
            let k = choose|k: int| 0 <= k < s.len() && s[k] == y;
            assert(s.push(x)[k] == y);
        }
        if y == x {
            assert(s.push(x)[s.len() as int] == x);
        }
    }
    assert(s.push(x).to_set() =~= s.to_set().insert(x));
}

impl Lattice for VregSet {
    open spec fn model(&self) -> Set<usize> {
        self.0@.to_set()
    }

    fn bottom() -> (r: Self) {
        let r = VregSet(Vec::new());
        assert(r.model() =~= Set::<usize>::empty());
        r
    }

    fn join(&mut self, other: &Self) {
        let mut k: usize = 0;
        assert(other.0@.take(0).to_set() =~= Set::<usize>::empty());
        while k < other.0.len()
            invariant
                k <= other.0.len(),
                self.0@.to_set() == old(self).0@.to_set().union(other.0@.take(k as int).to_set()),
            decreases other.0.len() - k,
        {
            let v = other.0[k];
            proof {
                assert(other.0@.take(k + 1) == other.0@.take(k as int).push(v));
                lemma_push_to_set(other.0@.take(k as int), v);
            }
            if !vec_contains(&self.0, v) {
                proof {
                    lemma_push_to_set(self.0@, v);
                }
                self.0.push(v);
            }
            assert(self.0@.to_set() =~= old(self).0@.to_set().union(other.0@.take(k + 1).to_set()));
            k += 1;
        }
        assert(other.0@.take(other.0.len() as int) =~= other.0@);
    }

    fn transfer(gen: &Self, kill: &Self, out: &Self) -> (r: Self) {
        let mut result = VregSet(copy_vec(&gen.0));
        let mut k: usize = 0;
        assert(out.0@.take(0).to_set() =~= Set::<usize>::empty());
        while k < out.0.len()
            invariant
                k <= out.0.len(),
                result.0@.to_set() == flow(
                    gen.0@.to_set(),
                    kill.0@.to_set(),
                    out.0@.take(k as int).to_set(),
                ),
            decreases out.0.len() - k,
        {
            let v = out.0[k];
            proof {
                assert(out.0@.take(k + 1) == out.0@.take(k as int).push(v));
                lemma_push_to_set(out.0@.take(k as int), v);
            }
            if !vec_contains(&kill.0, v) && !vec_contains(&result.0, v) {
                proof {
                    lemma_push_to_set(result.0@, v);
                }
                result.0.push(v);
            }
            assert(result.0@.to_set() =~= flow(
                gen.0@.to_set(),
                kill.0@.to_set(),
                out.0@.take(k + 1).to_set(),
            ));
            k += 1;
        }
        assert(out.0@.take(out.0.len() as int) =~= out.0@);
        result
    }

    fn same(&self, other: &Self) -> (r: bool) {
        let a = all_in(&self.0, &other.0);
        let b = all_in(&other.0, &self.0);
        if a && b {
            assert(self.model() =~= other.model());
        }
        a && b
    }

    proof fn lemma_model_finite(&self) {
        vstd::seq_lib::seq_to_set_is_finite(self.0@);
    }
}

/// A copy of `v`.
fn copy_vec(v: &Vec<usize>) -> (r: Vec<usize>)
    ensures
        r@ == v@,
{
    let mut r: Vec<usize> = Vec::new();
    let mut k: usize = 0;
    while k < v.len()
        invariant
            k <= v.len(),
            r@ == v@.take(k as int),
        decreases v.len() - k,
    {
        r.push(v[k]);
        assert(v@.take(k + 1) =~= v@.take(k as int).push(v@[k as int]));
        k += 1;
    }
    assert(v@.take(v.len() as int) =~= v@);
    r
}

/// Whether every element of `a` occurs in `b`.
fn all_in(a: &Vec<usize>, b: &Vec<usize>) -> (r: bool)
    ensures
        r == a@.to_set().subset_of(b@.to_set()),
{
    let mut k: usize = 0;
    while k < a.len()
        invariant
            k <= a.len(),
            forall|t: int| 0 <= t < k ==> b@.contains(#[trigger] a@[t]),
        decreases a.len() - k,
    {
        if !vec_contains(b, a[k]) {
            assert(a@.to_set().contains(a@[k as int]));
            return false;
        }
        k += 1;
    }
    assert forall|x: usize| a@.to_set().contains(x) implies b@.to_set().contains(x) by {
        let t = choose|t: int| 0 <= t < a@.len() && a@[t] == x;
    }
    true
}

/// The models of a sequence of lattice values.
pub open spec fn models<L: Lattice>(s: Seq<L>) -> Seq<Set<usize>> {
    Seq::new(s.len(), |i: int| s[i].model())
}

/// The nodes `0..n`, in order.
pub open spec fn all_nodes(n: nat) -> Seq<usize> {
    Seq::new(n, |i: int| i as usize)
}

/// The number of missing elements, summed over a sequence of subsets of `u`.
pub open spec fn missing(sets: Seq<Set<usize>>, u: Set<usize>) -> nat
    decreases sets.len(),
{
    if sets.len() == 0 {
        0
    } else {
        missing(sets.drop_last(), u) + u.difference(sets.last()).len()
    }
}

proof fn lemma_missing_update(sets: Seq<Set<usize>>, u: Set<usize>, i: int, a: Set<usize>)
    requires
        0 <= i < sets.len(),
    ensures
        missing(sets.update(i, a), u) + u.difference(sets[i]).len() == missing(sets, u)
            + u.difference(a).len(),
    decreases sets.len(),
{
    let t = sets.update(i, a);
    if i == sets.len() - 1 {
        assert(t.drop_last() =~= sets.drop_last());
    } else {
        assert(t.drop_last() =~= sets.drop_last().update(i, a));
        lemma_missing_update(sets.drop_last(), u, i, a);
    }
}

proof fn lemma_difference_shrinks(u: Set<usize>, b: Set<usize>, a: Set<usize>)
    requires
        u.finite(),
        b.subset_of(a),
        a.subset_of(u),
        a != b,
    ensures
        u.difference(a).len() < u.difference(b).len(),
{
    assert(exists|x: usize| a.contains(x) && !b.contains(x)) by {
        if !(exists|x: usize| a.contains(x) && !b.contains(x)) {
            assert(a =~= b);
        }
    }
    let x = choose|x: usize| a.contains(x) && !b.contains(x);
    vstd::set_lib::lemma_len_subset(u.difference(b), u);
    assert(u.difference(a).subset_of(u.difference(b).remove(x)));
    vstd::set_lib::lemma_len_subset(u.difference(a), u.difference(b).remove(x));
}

proof fn lemma_union_over_contains(sets: Seq<Set<usize>>, idxs: Seq<usize>, k: int)
    requires
        0 <= k < idxs.len(),
    ensures
        sets[idxs[k] as int].subset_of(union_over(sets, idxs)),
    decreases idxs.len(),
{
    if k < idxs.len() - 1 {
        assert(idxs.drop_last()[k] == idxs[k]);
        lemma_union_over_contains(sets, idxs.drop_last(), k);
    }
}

proof fn lemma_union_over_finite(sets: Seq<Set<usize>>, idxs: Seq<usize>)
    requires
        forall|k: int| 0 <= k < idxs.len() ==> (#[trigger] sets[idxs[k] as int]).finite(),
    ensures
        union_over(sets, idxs).finite(),
    decreases idxs.len(),
{
    if idxs.len() > 0 {
        assert forall|k: int| 0 <= k < idxs.drop_last().len() implies (#[trigger] sets[idxs.drop_last()[k] as int]).finite() by {
            assert(idxs.drop_last()[k] == idxs[k]);
        }
        lemma_union_over_finite(sets, idxs.drop_last());
        assert(sets[idxs[idxs.len() - 1] as int].finite());
    }
}

/// Whether `live_in`/`live_out` solve the backward dataflow equations of a
/// graph with the given gen and kill sets: the live-out set of a node is the
/// union of the live-in sets of its successors, and its live-in set is
/// `gen ∪ (live_out − kill)`.
pub open spec fn solves_backward(
    live_in: Seq<Set<usize>>,
    live_out: Seq<Set<usize>>,
    gen: Seq<Set<usize>>,
    kill: Seq<Set<usize>>,
    succs: Seq<Seq<usize>>,
) -> bool {
    &&& live_in.len() == succs.len()
    &&& live_out.len() == succs.len()
    &&& forall|i: int|
        0 <= i < succs.len() ==> #[trigger] live_out[i] == union_over(live_in, succs[i])
    &&& forall|i: int|
        0 <= i < succs.len() ==> #[trigger] live_in[i] == flow(gen[i], kill[i], live_out[i])
}

/// `(xin, xout)` is a solution that lies inside every other solution.
pub open spec fn is_least_solution(
    xin: Seq<Set<usize>>,
    xout: Seq<Set<usize>>,
    gen: Seq<Set<usize>>,
    kill: Seq<Set<usize>>,
    succs: Seq<Seq<usize>>,
) -> bool {
    &&& solves_backward(xin, xout, gen, kill, succs)
    &&& forall|yin: Seq<Set<usize>>, yout: Seq<Set<usize>>, i: int|
        #![trigger solves_backward(yin, yout, gen, kill, succs), xin[i]]
        solves_backward(yin, yout, gen, kill, succs) && 0 <= i < succs.len() ==> xin[i].subset_of(
            yin[i],
        )
    &&& forall|yin: Seq<Set<usize>>, yout: Seq<Set<usize>>, i: int|
        #![trigger solves_backward(yin, yout, gen, kill, succs), xout[i]]
        solves_backward(yin, yout, gen, kill, succs) && 0 <= i < succs.len() ==> xout[i].subset_of(
            yout[i],
        )
}

/// The live-out sets of the least solution of the backward equations.
pub open spec fn least_live_out(
    gen: Seq<Set<usize>>,
    kill: Seq<Set<usize>>,
    succs: Seq<Seq<usize>>,
) -> Seq<Set<usize>> {
    (choose|p: (Seq<Set<usize>>, Seq<Set<usize>>)| is_least_solution(p.0, p.1, gen, kill, succs)).1
}

/// The least solution is unique, so any least solution gives `least_live_out`.
pub proof fn lemma_least_live_out(
    xin: Seq<Set<usize>>,
    xout: Seq<Set<usize>>,
    gen: Seq<Set<usize>>,
    kill: Seq<Set<usize>>,
    succs: Seq<Seq<usize>>,
)
    requires
        is_least_solution(xin, xout, gen, kill, succs),
    ensures
        least_live_out(gen, kill, succs) == xout,
{
    let p = (xin, xout);
    assert(is_least_solution(p.0, p.1, gen, kill, succs));
    let q = choose|p: (Seq<Set<usize>>, Seq<Set<usize>>)| is_least_solution(p.0, p.1, gen, kill, succs);
    assert(is_least_solution(q.0, q.1, gen, kill, succs));
    assert(solves_backward(q.0, q.1, gen, kill, succs));
    assert(solves_backward(xin, xout, gen, kill, succs));
    assert forall|i: int| 0 <= i < succs.len() implies q.1[i] == xout[i] by {
        assert(q.1[i].subset_of(xout[i]));
        assert(xout[i].subset_of(q.1[i]));
        assert(q.1[i] =~= xout[i]);
    }
    assert(q.1 =~= xout);
}

/// Every entry of `ins` lies inside the matching live-in set of every solution.
pub open spec fn below_all_solutions(
    ins: Seq<Set<usize>>,
    gen: Seq<Set<usize>>,
    kill: Seq<Set<usize>>,
    succs: Seq<Seq<usize>>,
) -> bool {
    forall|xin: Seq<Set<usize>>, xout: Seq<Set<usize>>|
        #[trigger] solves_backward(xin, xout, gen, kill, succs) ==> forall|j: int|
            0 <= j < succs.len() ==> (#[trigger] ins[j]).subset_of(xin[j])
}

/// Node `j` satisfies its two equations.
pub open spec fn node_fixed(
    ins: Seq<Set<usize>>,
    outs: Seq<Set<usize>>,
    gen: Seq<Set<usize>>,
    kill: Seq<Set<usize>>,
    succs: Seq<Seq<usize>>,
    j: int,
) -> bool {
    &&& outs[j] == union_over(ins, succs[j])
    &&& ins[j] == flow(gen[j], kill[j], outs[j])
}

/// Every entry of `ins` lies below its flow value.
pub open spec fn under_flow(
    ins: Seq<Set<usize>>,
    gen: Seq<Set<usize>>,
    kill: Seq<Set<usize>>,
    succs: Seq<Seq<usize>>,
) -> bool {
    forall|j: int|
        0 <= j < succs.len() ==> (#[trigger] ins[j]).subset_of(
            flow(gen[j], kill[j], union_over(ins, succs[j])),
        )
}

proof fn lemma_flow_below_solutions(
    ins: Seq<Set<usize>>,
    gen: Seq<Set<usize>>,
    kill: Seq<Set<usize>>,
    succs: Seq<Seq<usize>>,
    i: int,
)
    requires
        below_all_solutions(ins, gen, kill, succs),
        succs_in_range(succs),
        0 <= i < succs.len(),
    ensures
        forall|xin: Seq<Set<usize>>, xout: Seq<Set<usize>>|
            #[trigger] solves_backward(xin, xout, gen, kill, succs) ==> flow(
                gen[i],
                kill[i],
                union_over(ins, succs[i]),
            ).subset_of(xin[i]),
{
    assert forall|xin: Seq<Set<usize>>, xout: Seq<Set<usize>>|
        #[trigger] solves_backward(xin, xout, gen, kill, succs) implies flow(
        gen[i],
        kill[i],
        union_over(ins, succs[i]),
    ).subset_of(xin[i]) by {
        assert forall|k: int| 0 <= k < succs[i].len() implies (#[trigger] ins[succs[i][k] as int]).subset_of(
            xin[succs[i][k] as int],
        ) by {
            assert(succs[i][k] < succs.len());
        }
        lemma_union_over_mono(ins, xin, succs[i]);
        assert(xout[i] == union_over(xin, succs[i]));
        assert(xin[i] == flow(gen[i], kill[i], xout[i]));
    }
}

proof fn lemma_update_stays_below(
    ins: Seq<Set<usize>>,
    gen: Seq<Set<usize>>,
    kill: Seq<Set<usize>>,
    succs: Seq<Seq<usize>>,
    i: int,
    a: Set<usize>,
)
    requires
        below_all_solutions(ins, gen, kill, succs),
        under_flow(ins, gen, kill, succs),
        succs_in_range(succs),
        ins.len() == succs.len(),
        0 <= i < succs.len(),
        a == flow(gen[i], kill[i], union_over(ins, succs[i])),
    ensures
        below_all_solutions(ins.update(i, a), gen, kill, succs),
        under_flow(ins.update(i, a), gen, kill, succs),
        ins[i].subset_of(a),
{
    let ins2 = ins.update(i, a);
    lemma_flow_below_solutions(ins, gen, kill, succs, i);
    assert forall|xin: Seq<Set<usize>>, xout: Seq<Set<usize>>|
        #[trigger] solves_backward(xin, xout, gen, kill, succs) implies forall|j: int|
        0 <= j < succs.len() ==> (#[trigger] ins2[j]).subset_of(xin[j]) by {
        assert forall|j: int| 0 <= j < succs.len() implies (#[trigger] ins2[j]).subset_of(xin[j]) by {
            if j != i {
                assert(ins2[j] == ins[j]);
            }
        }
    }
    assert(ins[i].subset_of(a));
    assert forall|j: int| 0 <= j < succs.len() implies (#[trigger] ins2[j]).subset_of(
        flow(gen[j], kill[j], union_over(ins2, succs[j])),
    ) by {
        assert forall|k: int| 0 <= k < succs[j].len() implies (#[trigger] ins[succs[j][k] as int]).subset_of(
            ins2[succs[j][k] as int],
        ) by {
            assert(succs[j][k] < succs.len());
        }
        lemma_union_over_mono(ins, ins2, succs[j]);
        assert(ins[j].subset_of(flow(gen[j], kill[j], union_over(ins, succs[j]))));
    }
}

proof fn lemma_pop_front(pre: Seq<usize>)
    requires
        pre.len() > 0,
        pre.no_duplicates(),
    ensures
        pre.subrange(1, pre.len() as int).no_duplicates(),
        !pre.subrange(1, pre.len() as int).contains(pre[0]),
        forall|x: usize|
            #[trigger] pre.contains(x) <==> (x == pre[0] || pre.subrange(1, pre.len() as int).contains(
                x,
            )),
{
    let rest = pre.subrange(1, pre.len() as int);
    assert forall|x: usize| #[trigger] pre.contains(x) <==> (x == pre[0] || rest.contains(x)) by {
        if pre.contains(x) && x != pre[0] {
            let k = choose|k: int| 0 <= k < pre.len() && pre[k] == x;
            assert(rest[k - 1] == x);
        }
        if rest.contains(x) {
            let k = choose|k: int| 0 <= k < rest.len() && rest[k] == x;
            assert(pre[k + 1] == x);
        }
        if x == pre[0] {
            assert(pre[0] == x);
        }
    }
    if rest.contains(pre[0]) {
        let k = choose|k: int| 0 <= k < rest.len() && rest[k] == pre[0];
        assert(pre[k + 1] == pre[0]);
    }
}

proof fn lemma_least_solution(
    ri: Seq<Set<usize>>,
    ro: Seq<Set<usize>>,
    gen: Seq<Set<usize>>,
    kill: Seq<Set<usize>>,
    succs: Seq<Seq<usize>>,
)
    requires
        below_all_solutions(ri, gen, kill, succs),
        solves_backward(ri, ro, gen, kill, succs),
        succs_in_range(succs),
    ensures
        forall|xin: Seq<Set<usize>>, xout: Seq<Set<usize>>, i: int|
            #![trigger solves_backward(xin, xout, gen, kill, succs), ri[i]]
            solves_backward(xin, xout, gen, kill, succs) && 0 <= i < succs.len() ==> ri[i].subset_of(
                xin[i],
            ),
        forall|xin: Seq<Set<usize>>, xout: Seq<Set<usize>>, i: int|
            #![trigger solves_backward(xin, xout, gen, kill, succs), ro[i]]
            solves_backward(xin, xout, gen, kill, succs) && 0 <= i < succs.len() ==> ro[i].subset_of(
                xout[i],
            ),
{
    assert forall|xin: Seq<Set<usize>>, xout: Seq<Set<usize>>, i: int|
        #![trigger solves_backward(xin, xout, gen, kill, succs), ro[i]]
        solves_backward(xin, xout, gen, kill, succs) && 0 <= i < succs.len() implies ro[i].subset_of(
        xout[i],
    ) by {
        lemma_out_below(ri, ro, gen, kill, succs, xin, xout, i);
    }
}

proof fn lemma_out_below(
    ri: Seq<Set<usize>>,
    ro: Seq<Set<usize>>,
    gen: Seq<Set<usize>>,
    kill: Seq<Set<usize>>,
    succs: Seq<Seq<usize>>,
    xin: Seq<Set<usize>>,
    xout: Seq<Set<usize>>,
    i: int,
)
    requires
        below_all_solutions(ri, gen, kill, succs),
        solves_backward(ri, ro, gen, kill, succs),
        solves_backward(xin, xout, gen, kill, succs),
        succs_in_range(succs),
        0 <= i < succs.len(),
    ensures
        ro[i].subset_of(xout[i]),
{
    assert(forall|j: int| 0 <= j < succs.len() ==> (#[trigger] ri[j]).subset_of(xin[j]));
    assert forall|k: int| 0 <= k < succs[i].len() implies (#[trigger] ri[succs[i][k] as int]).subset_of(
        xin[succs[i][k] as int],
    ) by {
        assert(succs[i][k] < succs.len());
    }
    lemma_union_over_mono(ri, xin, succs[i]);
    assert(ro[i] == union_over(ri, succs[i]));
    assert(xout[i] == union_over(xin, succs[i]));
}

/// The result of a backward may-analysis over a graph: the sets live on
/// entry to and on exit from each node.
pub struct BackwardLiveness<L> {
    pub live_in: Vec<L>,
    pub live_out: Vec<L>,
}

impl<L: Lattice> BackwardLiveness<L> {
    /// Runs the worklist algorithm to its fixpoint.  On return the sets solve
    /// the backward dataflow equations of `graph`, and the solution is the
    /// least one: it lies inside every other solution.
    pub fn compute(gen: &[L], kill: &[L], graph: &Graph) -> (r: Self)
        requires
            graph.wf(),
            gen@.len() == graph.succ_seqs().len(),
            kill@.len() == graph.succ_seqs().len(),
        ensures
            solves_backward(
                models(r.live_in@),
                models(r.live_out@),
                models(gen@),
                models(kill@),
                graph.succ_seqs(),
            ),
            is_least_solution(
                models(r.live_in@),
                models(r.live_out@),
                models(gen@),
                models(kill@),
                graph.succ_seqs(),
            ),
            models(r.live_out@) == least_live_out(models(gen@), models(kill@), graph.succ_seqs()),
            forall|i: int|
                0 <= i < graph.succ_seqs().len() ==> (#[trigger] models(r.live_out@)[i]).subset_of(
                    union_over(models(gen@), all_nodes(graph.succ_seqs().len())),
                ),
            forall|xin: Seq<Set<usize>>, xout: Seq<Set<usize>>, i: int|
                #![trigger solves_backward(xin, xout, models(gen@), models(kill@), graph.succ_seqs()), models(r.live_in@)[i]]
                solves_backward(xin, xout, models(gen@), models(kill@), graph.succ_seqs()) && 0 <= i
                    < graph.succ_seqs().len() ==> models(r.live_in@)[i].subset_of(xin[i]),
            forall|xin: Seq<Set<usize>>, xout: Seq<Set<usize>>, i: int|
                #![trigger solves_backward(xin, xout, models(gen@), models(kill@), graph.succ_seqs()), models(r.live_out@)[i]]
                solves_backward(xin, xout, models(gen@), models(kill@), graph.succ_seqs()) && 0 <= i
                    < graph.succ_seqs().len() ==> models(r.live_out@)[i].subset_of(xout[i]),
    {
        let n = graph.num_nodes();
        let ghost succs = graph.succ_seqs();
        let ghost gm = models(gen@);
        let ghost km = models(kill@);
        let ghost u = union_over(gm, all_nodes(n as nat));
        proof {
            assert forall|j: int| 0 <= j < n implies (#[trigger] gm[j]).subset_of(u) by {
                assert(all_nodes(n as nat)[j] == j);
                lemma_union_over_contains(gm, all_nodes(n as nat), j);
            }
            assert forall|k: int| 0 <= k < all_nodes(n as nat).len() implies (#[trigger] gm[all_nodes(
                n as nat,
            )[k] as int]).finite() by {
                gen@[k].lemma_model_finite();
            }
            lemma_union_over_finite(gm, all_nodes(n as nat));
        }

        let mut live_in: Vec<L> = Vec::new();
        let mut live_out: Vec<L> = Vec::new();
        let mut in_worklist: Vec<bool> = Vec::new();
        let mut t: usize = 0;
        while t < n
            invariant
                t <= n,
                live_in.len() == t,
                live_out.len() == t,
                in_worklist.len() == t,
                forall|j: int| 0 <= j < t ==> (#[trigger] live_in@[j]).model() == Set::<usize>::empty(),
                forall|j: int| 0 <= j < t ==> #[trigger] in_worklist@[j],
            decreases n - t,
        {
            live_in.push(L::bottom());
            live_out.push(L::bottom());
            in_worklist.push(true);
            t += 1;
        }
        let mut worklist: std::collections::VecDeque<usize> = std::collections::VecDeque::new();
        let mut t: usize = n;
        while t > 0
            invariant
                t <= n,
                worklist@.len() == n - t,
                forall|k: int| 0 <= k < worklist@.len() ==> #[trigger] worklist@[k] == n - 1 - k,
            decreases t,
        {
            t -= 1;
            worklist.push_back(t);
        }
        proof {
            assert forall|j: int| 0 <= j < n implies (#[trigger] in_worklist@[j]) == worklist@.contains(
                j as usize,
            ) by {
                assert(worklist@[n - 1 - j] == j);
            }
            assert forall|j: int| 0 <= j < n implies (#[trigger] models(live_in@)[j]).subset_of(
                flow(gm[j], km[j], union_over(models(live_in@), succs[j])),
            ) by {
                assert(models(live_in@)[j] =~= Set::<usize>::empty());
            }
            assert forall|j: int| 0 <= j < n implies (#[trigger] models(live_in@)[j]).subset_of(u) by {
                assert(models(live_in@)[j] =~= Set::<usize>::empty());
            }
            assert forall|xin: Seq<Set<usize>>, xout: Seq<Set<usize>>|
                #[trigger] solves_backward(xin, xout, gm, km, succs) implies forall|j: int|
                0 <= j < n ==> (#[trigger] models(live_in@)[j]).subset_of(xin[j]) by {
                assert forall|j: int| 0 <= j < n implies (#[trigger] models(live_in@)[j]).subset_of(
                    xin[j],
                ) by {
                    assert(models(live_in@)[j] =~= Set::<usize>::empty());
                }
            }
        }

        while worklist.len() > 0
            invariant
                n == succs.len(),
                succs == graph.succ_seqs(),
                graph.wf(),
                succs_in_range(succs),
                gm == models(gen@),
                km == models(kill@),
                gen@.len() == n,
                kill@.len() == n,
                u.finite(),
                forall|j: int| 0 <= j < n ==> (#[trigger] gm[j]).subset_of(u),
                live_in.len() == n,
                live_out.len() == n,
                in_worklist.len() == n,
                worklist@.no_duplicates(),
                forall|k: int| 0 <= k < worklist@.len() ==> #[trigger] worklist@[k] < n,
                forall|j: int|
                    0 <= j < n ==> (#[trigger] in_worklist@[j]) == worklist@.contains(j as usize),
                forall|j: int| 0 <= j < n ==> (#[trigger] models(live_in@)[j]).subset_of(u),
                under_flow(models(live_in@), gm, km, succs),
                forall|j: int|
                    0 <= j < n && !(#[trigger] in_worklist@[j]) ==> node_fixed(
                        models(live_in@),
                        models(live_out@),
                        gm,
                        km,
                        succs,
                        j,
                    ),
                below_all_solutions(models(live_in@), gm, km, succs),
            decreases missing(models(live_in@), u), worklist@.len(),
        {
            let ghost pre_wl = worklist@;
            proof {
                lemma_pop_front(pre_wl);
            }
            let i = worklist.pop_front().unwrap();
            in_worklist.set(i, false);
            let ghost ins = models(live_in@);
            let ghost outs = models(live_out@);
            let ghost inw = in_worklist@;

            let succ = graph.successors(i);
            let mut new_out = L::bottom();
            let mut k: usize = 0;
            assert(succ@.take(0) =~= Seq::<usize>::empty());
            while k < succ.len()
                invariant
                    i < n,
                    n == succs.len(),
                    succs_in_range(succs),
                    succ@ == succs[i as int],
                    live_in.len() == n,
                    ins == models(live_in@),
                    k <= succ.len(),
                    new_out.model() == union_over(ins, succ@.take(k as int)),
                decreases succ.len() - k,
            {
                let s = succ[k];
                assert(succs[i as int][k as int] < n);
                assert(succ@.take(k + 1).drop_last() =~= succ@.take(k as int));
                new_out.join(&live_in[s]);
                k += 1;
            }
            assert(succ@.take(succ.len() as int) =~= succ@);
            let new_in = L::transfer(&gen[i], &kill[i], &new_out);
            proof {
                assert forall|k: int| 0 <= k < succs[i as int].len() implies (#[trigger] ins[succs[i as int][k] as int]).subset_of(u) by {
                    assert(succs[i as int][k] < n);
                }
                lemma_union_over_bounded(ins, succs[i as int], u);
                lemma_update_stays_below(ins, gm, km, succs, i as int, new_in.model());
            }

            if !new_in.same(&live_in[i]) {
                live_in.set(i, new_in);
                live_out.set(i, new_out);
                let ghost ins2 = models(live_in@);
                proof {
                    assert(ins2 =~= ins.update(i as int, new_in.model()));
                    lemma_missing_update(ins, u, i as int, new_in.model());
                    lemma_difference_shrinks(u, ins[i as int], new_in.model());
                    graph.lemma_preds(i as int, 0);
                }
                let preds = graph.predecessors(i);
                let mut k: usize = 0;
                assert(preds@.take(0) =~= Seq::<usize>::empty());
                while k < preds.len()
                    invariant
                        i < n,
                        n == graph.pred_seqs().len(),
                        preds@ == graph.pred_seqs()[i as int],
                        forall|t: int| 0 <= t < preds@.len() ==> #[trigger] preds@[t] < n,
                        k <= preds.len(),
                        in_worklist.len() == n,
                        inw.len() == n,
                        worklist@.no_duplicates(),
                        forall|t: int| 0 <= t < worklist@.len() ==> #[trigger] worklist@[t] < n,
                        forall|j: int|
                            0 <= j < n ==> (#[trigger] in_worklist@[j]) == worklist@.contains(j as usize),
                        forall|j: int|
                            0 <= j < n ==> (#[trigger] in_worklist@[j]) == (inw[j] || preds@.take(
                                k as int,
                            ).contains(j as usize)),
                    decreases preds.len() - k,
                {
                    let p = preds[k];
                    assert(preds@.take(k + 1).drop_last() =~= preds@.take(k as int));
                    let ghost wl_before = worklist@;
                    if !in_worklist[p] {
                        in_worklist.set(p, true);
                        worklist.push_back(p);
                        proof {
                            assert forall|j: int| 0 <= j < n implies (#[trigger] in_worklist@[j])
                                == worklist@.contains(j as usize) by {
                                if wl_before.contains(j as usize) {
                                    let q = choose|q: int| 0 <= q < wl_before.len() && wl_before[q] == j as usize;
                                    assert(worklist@[q] == j);
                                }
                                if worklist@.contains(j as usize) && j != p {
                                    let q = choose|q: int| 0 <= q < worklist@.len() && worklist@[q] == j as usize;
                                    assert(q < wl_before.len());
                                    assert(wl_before[q] == j);
                                }
                                if j == p {
                                    assert(worklist@[wl_before.len() as int] == p);
                                }
                            }
                            assert forall|t: int| 0 <= t < worklist@.len() implies #[trigger] worklist@[t] < n by {
                                if t < wl_before.len() {
                                    assert(worklist@[t] == wl_before[t]);
                                }
                            }
                        }
                    }
                    k += 1;
                }
                assert(preds@.take(preds.len() as int) =~= preds@);
                proof {
                    assert forall|j: int|
                        0 <= j < n && !(#[trigger] in_worklist@[j]) implies node_fixed(
                        models(live_in@),
                        models(live_out@),
                        gm,
                        km,
                        succs,
                        j,
                    ) by {
                        graph.lemma_preds(i as int, j as usize);
                        assert(!succs[j].contains(i));
                        assert forall|k: int| 0 <= k < succs[j].len() implies ins[succs[j][k] as int]
                            == ins2[succs[j][k] as int] by {
                            assert(succs[j][k] != i);
                            assert(succs[j][k] < n);
                        }
                        lemma_union_over_agree(ins, ins2, succs[j]);
                        if j != i {
                            assert(!inw[j]);
                            assert(node_fixed(ins, outs, gm, km, succs, j));
                            assert(models(live_out@)[j] == outs[j]);
                        }
                    }
                }
            } else {
                live_out.set(i, new_out);
                proof {
                    assert(models(live_in@) =~= ins);
                    assert forall|j: int|
                        0 <= j < n && !(#[trigger] in_worklist@[j]) implies node_fixed(
                        models(live_in@),
                        models(live_out@),
                        gm,
                        km,
                        succs,
                        j,
                    ) by {
                        if j != i {
                            assert(models(live_out@)[j] == outs[j]);
                        }
                    }
                }
            }
        }
        let r = BackwardLiveness { live_in, live_out };
        proof {
            let ri = models(r.live_in@);
            let ro = models(r.live_out@);
            assert forall|j: int| 0 <= j < n implies node_fixed(ri, ro, gm, km, succs, j) by {
                assert(!in_worklist@[j]);
            }
            assert forall|j: int| 0 <= j < n implies #[trigger] ro[j] == union_over(ri, succs[j]) by {
                assert(node_fixed(ri, ro, gm, km, succs, j));
            }
            assert forall|j: int| 0 <= j < n implies #[trigger] ri[j] == flow(gm[j], km[j], ro[j]) by {
                assert(node_fixed(ri, ro, gm, km, succs, j));
            }
            assert(solves_backward(ri, ro, gm, km, succs));
            lemma_least_solution(ri, ro, gm, km, succs);
            assert(is_least_solution(ri, ro, gm, km, succs));
            lemma_least_live_out(ri, ro, gm, km, succs);
            assert forall|i: int| 0 <= i < n implies (#[trigger] ro[i]).subset_of(u) by {
                assert(node_fixed(ri, ro, gm, km, succs, i));
                assert forall|k: int| 0 <= k < succs[i].len() implies (#[trigger] ri[succs[i][k] as int]).subset_of(u) by {
                    assert(succs[i][k] < n);
                }
                lemma_union_over_bounded(ri, succs[i], u);
            }
        }
        r
    }
}


/// `p` is a path through the graph `succs` that starts anywhere, ends at a
/// node whose `gen` set holds `v`, and passes no node before its last whose
/// `kill` set holds `v`.
pub open spec fn use_path(
    p: Seq<usize>,
    gen: Seq<Set<usize>>,
    kill: Seq<Set<usize>>,
    succs: Seq<Seq<usize>>,
    v: usize,
) -> bool {
    &&& p.len() >= 1
    &&& forall|k: int| 0 <= k < p.len() ==> #[trigger] p[k] < succs.len()
    &&& forall|k: int| 0 <= k < p.len() - 1 ==> succs[p[k] as int].contains(#[trigger] p[k + 1])
    &&& gen[p.last() as int].contains(v)
    &&& forall|k: int| 0 <= k < p.len() - 1 ==> !kill[#[trigger] p[k] as int].contains(v)
}

/// The registers for which a use path leaves node `i`.
pub open spec fn path_live(
    gen: Seq<Set<usize>>,
    kill: Seq<Set<usize>>,
    succs: Seq<Seq<usize>>,
    i: int,
) -> Set<usize> {
    Set::new(|v: usize| exists|p: Seq<usize>| #[trigger] use_path(p, gen, kill, succs, v) && p[0] == i)
}

proof fn lemma_union_over_member(sets: Seq<Set<usize>>, idxs: Seq<usize>, v: usize)
    requires
        union_over(sets, idxs).contains(v),
    ensures
        exists|k: int| 0 <= k < idxs.len() && (#[trigger] sets[idxs[k] as int]).contains(v),
    decreases idxs.len(),
{
    if idxs.len() > 0 {
        if sets[idxs.last() as int].contains(v) {
            assert(sets[idxs[idxs.len() - 1] as int].contains(v));
        } else {
            lemma_union_over_member(sets, idxs.drop_last(), v);
            let k = choose|k: int| 0 <= k < idxs.drop_last().len() && (#[trigger] sets[idxs.drop_last()[k] as int]).contains(v);
            assert(idxs.drop_last()[k] == idxs[k]);
        }
    }
}

/// The sets of `path_live` solve the backward dataflow equations.
proof fn lemma_path_live_solves(gen: Seq<Set<usize>>, kill: Seq<Set<usize>>, succs: Seq<Seq<usize>>)
    requires
        succs_in_range(succs),
        succs.len() <= usize::MAX,
        gen.len() == succs.len(),
        kill.len() == succs.len(),
    ensures
        solves_backward(
            Seq::new(succs.len(), |i: int| path_live(gen, kill, succs, i)),
            Seq::new(succs.len(), |i: int| union_over(Seq::new(succs.len(), |j: int| path_live(gen, kill, succs, j)), succs[i])),
            gen,
            kill,
            succs,
        ),
{
    let n = succs.len();
    let pin = Seq::new(n, |i: int| path_live(gen, kill, succs, i));
    let pout = Seq::new(n, |i: int| union_over(pin, succs[i]));
    assert forall|i: int| 0 <= i < n implies #[trigger] pin[i] == flow(gen[i], kill[i], pout[i]) by {
        assert forall|v: usize| pin[i].contains(v) implies flow(gen[i], kill[i], pout[i]).contains(v) by {
            let p = choose|p: Seq<usize>| #[trigger] use_path(p, gen, kill, succs, v) && p[0] == i;
            if p.len() > 1 {
                let q = p.subrange(1, p.len() as int);
                assert forall|k: int| 0 <= k < q.len() - 1 implies succs[q[k] as int].contains(#[trigger] q[k + 1]) by {
                    assert(q[k] == p[k + 1] && q[k + 1] == p[(k + 1) + 1]);
                }
                assert forall|k: int| 0 <= k < q.len() - 1 implies !kill[#[trigger] q[k] as int].contains(v) by {
                    assert(q[k] == p[k + 1]);
                }
                assert forall|k: int| 0 <= k < q.len() implies #[trigger] q[k] < succs.len() by {
                    assert(q[k] == p[k + 1]);
                }
                assert(q.last() == p.last());
                assert(use_path(q, gen, kill, succs, v));
                let s = p[1] as int;
                assert(succs[p[0] as int].contains(p[1]));
                let k = choose|k: int| 0 <= k < succs[i].len() && succs[i][k] == p[1];
                assert(succs[i][k] as int == s);
                assert(pin[s].contains(v)) by {
                    assert(use_path(q, gen, kill, succs, v) && q[0] == s);
                }
                assert(pin[succs[i][k] as int].contains(v));
                lemma_union_over_contains(pin, succs[i], k);
                assert(!kill[p[0] as int].contains(v));
            }
        }
        assert forall|v: usize| flow(gen[i], kill[i], pout[i]).contains(v) implies pin[i].contains(v) by {
            if gen[i].contains(v) {
                let p = seq![i as usize];
                assert(use_path(p, gen, kill, succs, v));
            } else {
                lemma_union_over_member(pin, succs[i], v);
                let k = choose|k: int| 0 <= k < succs[i].len() && (#[trigger] pin[succs[i][k] as int]).contains(v);
                let s = succs[i][k] as int;
                assert(s < n);
                let q = choose|q: Seq<usize>| #[trigger] use_path(q, gen, kill, succs, v) && q[0] == s;
                let p = seq![i as usize] + q;
                assert forall|t: int| 0 <= t < p.len() implies #[trigger] p[t] < succs.len() by {
                    if t > 0 {
                        assert(p[t] == q[t - 1]);
                    }
                }
                assert forall|t: int| 0 <= t < p.len() - 1 implies succs[p[t] as int].contains(#[trigger] p[t + 1]) by {
                    if t == 0 {
                        assert(p[1] == q[0]);
                        assert(succs[i][k] == s as usize);
                    } else {
                        assert(p[t] == q[t - 1] && p[t + 1] == q[(t - 1) + 1]);
                    }
                }
                assert forall|t: int| 0 <= t < p.len() - 1 implies !kill[#[trigger] p[t] as int].contains(v) by {
                    if t > 0 {
                        assert(p[t] == q[t - 1]);
                    }
                }
                assert(p.last() == q.last());
                assert(use_path(p, gen, kill, succs, v));
            }
        }
        assert(pin[i] =~= flow(gen[i], kill[i], pout[i]));
    }
}

/// Liveness by paths: a register is live on entry to a node (in the least
/// solution of the dataflow equations) only if a path leaves that node and
/// reaches a node that uses the register, with no definition of it on the way.
pub proof fn lemma_live_in_has_use_path(
    xin: Seq<Set<usize>>,
    xout: Seq<Set<usize>>,
    gen: Seq<Set<usize>>,
    kill: Seq<Set<usize>>,
    succs: Seq<Seq<usize>>,
    i: int,
    v: usize,
)
    requires
        is_least_solution(xin, xout, gen, kill, succs),
        succs_in_range(succs),
        succs.len() <= usize::MAX,
        gen.len() == succs.len(),
        kill.len() == succs.len(),
        0 <= i < succs.len(),
        xin[i].contains(v),
    ensures
        exists|p: Seq<usize>| #[trigger] use_path(p, gen, kill, succs, v) && p[0] == i,
{
    let n = succs.len();
    let pin = Seq::new(n, |j: int| path_live(gen, kill, succs, j));
    let pout = Seq::new(n, |j: int| union_over(pin, succs[j]));
    lemma_path_live_solves(gen, kill, succs);
    assert(solves_backward(pin, pout, gen, kill, succs));
    assert(xin[i].subset_of(pin[i]));
    assert(pin[i].contains(v));
}

} // verus!
