use teac::common::graph::{BackwardLiveness, Graph, VregSet};
use teac::opt::dominator::{reachable_from_entry, DominatorInfo};

fn diamond() -> Graph {
    // 0 -> 1, 0 -> 2, 1 -> 3, 2 -> 3
    Graph::new(vec![vec![1, 2], vec![3], vec![3], vec![]])
}

#[test]
fn graph_new_computes_predecessors() {
    let g = diamond();
    assert_eq!(g.num_nodes(), 4);
    assert_eq!(g.successors(0), &[1, 2]);
    assert_eq!(g.predecessors(0), &[] as &[usize]);
    assert_eq!(g.predecessors(3), &[1, 2]);
    assert_eq!(g.predecessors(1), &[0]);
}

#[test]
fn graph_predecessors_repeat_parallel_edges() {
    let g = Graph::new(vec![vec![1, 1], vec![0]]);
    assert_eq!(g.predecessors(1), &[0, 0]);
    assert_eq!(g.predecessors(0), &[1]);
}

#[test]
fn liveness_bool_flows_backwards() {
    let g = diamond();
    // used in block 3 before any definition; defined in block 1
    let gen = vec![false, false, false, true];
    let kill = vec![false, true, false, false];
    let r = BackwardLiveness::<bool>::compute(&gen, &kill, &g);
    assert_eq!(r.live_in, vec![true, false, true, true]);
    assert_eq!(r.live_out, vec![true, true, true, false]);
}

#[test]
fn liveness_sets_around_a_loop() {
    // 0 -> 1, 1 -> 1, 1 -> 2
    let g = Graph::new(vec![vec![1], vec![1, 2], vec![]]);
    let gen = vec![VregSet(vec![]), VregSet(vec![5]), VregSet(vec![7])];
    let kill = vec![VregSet(vec![5, 7]), VregSet(vec![]), VregSet(vec![])];
    let r = BackwardLiveness::<VregSet>::compute(&gen, &kill, &g);
    let mut in0 = r.live_in[0].0.clone();
    in0.sort();
    in0.dedup();
    assert_eq!(in0, Vec::<usize>::new());
    let mut in1 = r.live_in[1].0.clone();
    in1.sort();
    in1.dedup();
    assert_eq!(in1, vec![5, 7]);
    let mut out0 = r.live_out[0].0.clone();
    out0.sort();
    out0.dedup();
    assert_eq!(out0, vec![5, 7]);
}

#[test]
fn reachability_skips_disconnected_nodes() {
    let g = Graph::new(vec![vec![1], vec![], vec![1]]);
    assert_eq!(reachable_from_entry(&g), vec![true, true, false]);
}

#[test]
fn dominators_of_a_diamond() {
    let g = diamond();
    let d = DominatorInfo::compute(&g);
    assert!(d.dominates(0, 3));
    assert!(d.dominates(0, 1));
    assert!(!d.dominates(1, 3));
    assert!(!d.dominates(2, 3));
    assert!(d.dominates(3, 3));
    assert_eq!(d.dominance_frontier(1), &[3]);
    assert_eq!(d.dominance_frontier(2), &[3]);
    assert_eq!(d.dominance_frontier(0), &[] as &[usize]);
    assert_eq!(d.dom_children(0), &[1, 2, 3]);
    assert_eq!(d.dom_tree_roots(), vec![0]);
    assert_eq!(d.level(0), 1);
    assert_eq!(d.level(3), 2);
}

#[test]
fn dominance_frontier_of_a_loop_header() {
    // 0 -> 1, 1 -> 2, 2 -> 1, 1 -> 3
    let g = Graph::new(vec![vec![1], vec![2, 3], vec![1], vec![]]);
    let d = DominatorInfo::compute(&g);
    assert_eq!(d.dominance_frontier(2), &[1]);
    assert_eq!(d.dominance_frontier(1), &[1]);
    assert!(d.dominates(1, 2));
    assert!(d.dominates(1, 3));
}

#[test]
fn unreachable_nodes_are_roots() {
    let g = Graph::new(vec![vec![1], vec![], vec![1]]);
    let d = DominatorInfo::compute(&g);
    assert_eq!(d.dom_tree_roots(), vec![0, 2]);
    assert!(!d.dominates(2, 1));
    assert!(d.dominates(0, 1));
}

#[test]
fn liveness_needs_a_use_path_without_a_definition() {
    // 0 -> 1 -> 2 and 0 -> 3; register 4 is used at 2, defined at 1; register 9 is used at 3.
    let g = Graph::new(vec![vec![1, 3], vec![2], vec![], vec![]]);
    let gen = vec![VregSet(vec![]), VregSet(vec![]), VregSet(vec![4]), VregSet(vec![9])];
    let kill = vec![VregSet(vec![]), VregSet(vec![4]), VregSet(vec![]), VregSet(vec![])];
    let r = BackwardLiveness::<VregSet>::compute(&gen, &kill, &g);
    assert!(r.live_in[2].0.contains(&4));
    assert!(!r.live_in[1].0.contains(&4));
    assert!(!r.live_in[0].0.contains(&4));
    assert!(r.live_in[0].0.contains(&9));
    assert!(!r.live_in[1].0.contains(&9));
}
