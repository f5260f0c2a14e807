use vstd::prelude::*;
use crate::common::graph::{label_map_of, node_labels, CfgNode, Graph, LabelMap};
use crate::ir::function::{label_key, BasicBlock, BlockLabel};
use crate::ir::stmt::StmtInner;

verus! {

impl CfgNode for BasicBlock {
    open spec fn label_view(&self) -> Option<Seq<char>> {
        Some(label_key(self.label))
    }

    open spec fn targets_known(&self, map: Map<Seq<char>, usize>) -> bool {
        self.stmts@.len() > 0 ==> match self.stmts@.last().inner {
            StmtInner::Jump(j) => map.contains_key(label_key(j.target)),
            StmtInner::CJump(j) => map.contains_key(label_key(j.true_label)) && map.contains_key(
                label_key(j.false_label),
            ),
            _ => true,
        }
    }

    open spec fn successor_view(&self, idx: int, num_nodes: int, map: Map<Seq<char>, usize>) -> Seq<
        usize,
    > {
        let next: Seq<usize> = if idx + 1 < num_nodes {
            seq![(idx + 1) as usize]
        } else {
            Seq::empty()
        };
        if self.stmts@.len() == 0 {
            next
        } else {
            match self.stmts@.last().inner {
                StmtInner::Jump(j) => seq![map[label_key(j.target)]],
                StmtInner::CJump(j) => seq![map[label_key(j.true_label)], map[label_key(j.false_label)]],
                StmtInner::Return(_) => Seq::empty(),
                _ => next,
            }
        }
    }

    fn label(&self) -> (r: Option<String>) {
        Some(self.label.key())
    }

    fn successors(&self, idx: usize, num_nodes: usize, label_map: &LabelMap) -> (r: Vec<usize>) {
        let mut r: Vec<usize> = Vec::new();
        let n = self.stmts.len();
        if n == 0 {
            if idx + 1 < num_nodes {
                r.push(idx + 1);
            }
        } else {
            match &self.stmts[n - 1].inner {
                StmtInner::Jump(j) => {
                    r.push(label_map.get(&j.target.key()).unwrap());
                },
                StmtInner::CJump(j) => {
                    r.push(label_map.get(&j.true_label.key()).unwrap());
                    r.push(label_map.get(&j.false_label.key()).unwrap());
                },
                StmtInner::Return(_) => {},
                _ => {
                    if idx + 1 < num_nodes {
                        r.push(idx + 1);
                    }
                },
            }
        }
        assert(r@ =~= self.successor_view(idx as int, num_nodes as int, label_map.view_map()));
        r
    }
}

/// The successors of each block, jumps resolved through the blocks' labels.
pub open spec fn block_succs(blocks: Seq<BasicBlock>) -> Seq<Seq<usize>> {
    Seq::new(
        blocks.len(),
        |i: int| blocks[i].successor_view(i, blocks.len() as int, label_map_of(node_labels(blocks))),
    )
}

/// Every jump of every block names a label of the blocks.
pub open spec fn jumps_resolved(blocks: Seq<BasicBlock>) -> bool {
    forall|i: int|
        0 <= i < blocks.len() ==> (#[trigger] blocks[i]).targets_known(
            label_map_of(node_labels(blocks)),
        )
}

/// The control-flow graph of a function's blocks.
pub struct Cfg {
    labels: Vec<BlockLabel>,
    graph: Graph,
}

impl Cfg {
    pub closed spec fn spec_labels(&self) -> Seq<BlockLabel> {
        self.labels@
    }

    pub closed spec fn spec_graph(&self) -> Graph {
        self.graph
    }

    /// The graph is well formed and has one label per node.
    pub open spec fn wf(&self) -> bool {
        &&& self.spec_graph().wf()
        &&& self.spec_labels().len() == self.spec_graph().succ_seqs().len()
    }

    /// Builds the graph of `blocks`: a jump goes to the block that carries its
    /// label (the last such block), a return ends the flow, and any other
    /// block falls through to the next one.
    pub fn from_blocks(blocks: &[BasicBlock]) -> (r: Self)
        requires
            jumps_resolved(blocks@),
        ensures
            r.wf(),
            r.spec_labels() == blocks@.map_values(|b: BasicBlock| b.label),
            r.spec_graph().succ_seqs() == block_succs(blocks@),
    {
        let mut labels: Vec<BlockLabel> = Vec::new();
        let mut i: usize = 0;
        while i < blocks.len()
            invariant
                i <= blocks@.len(),
                labels@ == blocks@.take(i as int).map_values(|b: BasicBlock| b.label),
            decreases blocks@.len() - i,
        {
            labels.push(blocks[i].label.clone());
            assert(blocks@.take(i + 1).map_values(|b: BasicBlock| b.label) =~= blocks@.take(
                i as int,
            ).map_values(|b: BasicBlock| b.label).push(blocks@[i as int].label));
            i += 1;
        }
        assert(blocks@.take(blocks@.len() as int) =~= blocks@);
        let graph = Graph::from_nodes(blocks);
        assert(graph.succ_seqs() =~= block_succs(blocks@));
        Self { labels, graph }
    }

    pub fn graph(&self) -> (r: &Graph)
        ensures
            *r == self.spec_graph(),
    {
        &self.graph
    }

    pub fn num_blocks(&self) -> (r: usize)
        ensures
            r == self.spec_graph().succ_seqs().len(),
    {
        self.graph.num_nodes()
    }

    pub fn successors(&self, block: usize) -> (r: &[usize])
        requires
            block < self.spec_graph().succ_seqs().len(),
        ensures
            r@ == self.spec_graph().succ_seqs()[block as int],
    {
        self.graph.successors(block)
    }

    pub fn predecessors(&self, block: usize) -> (r: &[usize])
        requires
            block < self.spec_graph().pred_seqs().len(),
        ensures
            r@ == self.spec_graph().pred_seqs()[block as int],
    {
        self.graph.predecessors(block)
    }

    pub fn label(&self, block: usize) -> (r: &BlockLabel)
        requires
            block < self.spec_labels().len(),
        ensures
            *r == self.spec_labels()[block as int],
    {
        &self.labels[block]
    }

    pub fn labels(&self) -> (r: &[BlockLabel])
        ensures
            r@ == self.spec_labels(),
    {
        self.labels.as_slice()
    }
}

/// Whether every jump of every block names a label of the blocks.
pub fn jumps_are_resolved(blocks: &[BasicBlock]) -> (r: bool)
    ensures
        r == jumps_resolved(blocks@),
{
    let n = blocks.len();
    let ghost labels = node_labels(blocks@);
    let mut label_map = LabelMap::new();
    let mut i: usize = 0;
    while i < n
        invariant
            i <= n,
            n == blocks@.len(),
            labels == node_labels(blocks@),
            label_map.view_map() == label_map_of(labels.take(i as int)),
        decreases n - i,
    {
        assert(labels.take(i + 1).drop_last() =~= labels.take(i as int));
        assert(labels[i as int] == blocks@[i as int].label_view());
        label_map.insert(blocks[i].label.key(), i);
        i += 1;
    }
    assert(labels.take(n as int) =~= labels);
    let mut i: usize = 0;
    while i < n
        invariant
            i <= n,
            n == blocks@.len(),
            label_map.view_map() == label_map_of(node_labels(blocks@)),
            forall|j: int| 0 <= j < i ==> (#[trigger] blocks@[j]).targets_known(label_map_of(node_labels(blocks@))),
        decreases n - i,
    {
        let stmts = &blocks[i].stmts;
        if stmts.len() > 0 {
            let ok = match &stmts[stmts.len() - 1].inner {
                StmtInner::Jump(j) => label_map.get(&j.target.key()).is_some(),
                StmtInner::CJump(j) => label_map.get(&j.true_label.key()).is_some() && label_map.get(
                    &j.false_label.key(),
                ).is_some(),
                _ => true,
            };
            if !ok {
                return false;
            }
        }
        i += 1;
    }
    true
}

} // verus!
