use pipenet::graph::{GraphNode, NodeKind, PipeGraph, Wire};
use pipenet::junction::find_convergence;
use pipenet::search::breadth_first;

fn g(nodes: Vec<(usize, NodeKind)>, wires: Vec<(usize, usize)>) -> PipeGraph {
    PipeGraph {
        nodes: nodes.into_iter().map(|(id, kind)| GraphNode { id, kind }).collect(),
        wires: wires.into_iter().map(|(from, to)| Wire { from, to }).collect(),
    }
}

#[test]
fn successors_follow_wire_order_by_position() {
    let graph = g(
        vec![(30, NodeKind::Pump), (10, NodeKind::Pipe), (20, NodeKind::Fitting)],
        vec![(30, 20), (10, 20), (30, 10)],
    );
    assert!(graph.is_well_formed());
    assert_eq!(graph.successors(), vec![vec![2, 1], vec![2], vec![]]);
}

#[test]
fn find_gives_position() {
    let graph = g(vec![(30, NodeKind::Pump), (10, NodeKind::Pipe)], vec![]);
    assert_eq!(graph.find(10), Some(1));
    assert_eq!(graph.find(30), Some(0));
    assert_eq!(graph.find(11), None);
}

#[test]
fn duplicate_ids_are_not_well_formed() {
    let graph = g(vec![(1, NodeKind::Pump), (1, NodeKind::Pipe)], vec![]);
    assert!(!graph.is_well_formed());
}

#[test]
fn wire_to_missing_node_is_not_well_formed() {
    let graph = g(vec![(1, NodeKind::Pump), (2, NodeKind::Pipe)], vec![(1, 3)]);
    assert!(!graph.is_well_formed());
    let graph = g(vec![(1, NodeKind::Pump), (2, NodeKind::Pipe)], vec![(4, 2)]);
    assert!(!graph.is_well_formed());
}

#[test]
fn breadth_first_order_and_marks() {
    let adj = vec![vec![2, 1], vec![3], vec![3, 0], vec![], vec![0]];
    let (order, seen) = breadth_first(&adj, 0);
    assert_eq!(order, vec![0, 2, 1, 3]);
    assert_eq!(seen, vec![true, true, true, true, false]);
    let (order, seen) = breadth_first(&adj, 3);
    assert_eq!(order, vec![3]);
    assert_eq!(seen, vec![false, false, false, true, false]);
}

#[test]
fn convergence_is_first_common_node_in_breadth_first_order() {
    // 0 forks to 1 and 2; both reach 3 and 4; 3 comes first from 0.
    let adj = vec![vec![1, 2], vec![3], vec![4], vec![4], vec![3]];
    assert_eq!(find_convergence(&adj, 0, &vec![1, 2]), Some(3));
    // with the order of 0's successors swapped, 4 is found first
    let adj = vec![vec![2, 1], vec![3], vec![4], vec![4], vec![3]];
    assert_eq!(find_convergence(&adj, 0, &vec![2, 1]), Some(4));
}

#[test]
fn no_convergence_without_common_node_or_branches() {
    let adj = vec![vec![1, 2], vec![], vec![]];
    assert_eq!(find_convergence(&adj, 0, &vec![1, 2]), None);
    assert_eq!(find_convergence(&adj, 0, &vec![]), None);
}

#[test]
fn fork_itself_is_never_the_convergence() {
    // both branches lead back to the fork 0, which both reach, as they reach each other
    let adj = vec![vec![1, 2], vec![0], vec![0]];
    assert_eq!(find_convergence(&adj, 0, &vec![1, 2]), Some(1));
}

#[test]
fn node_titles_and_inputs() {
    assert_eq!(NodeKind::Pump.title(), "Насос");
    assert_eq!(NodeKind::Pipe.title(), "Труба");
    assert_eq!(NodeKind::Fitting.title(), "Местное сопротивление");
    assert_eq!(NodeKind::Pump.input_count(), 0);
    assert_eq!(NodeKind::Pipe.input_count(), 1);
    assert_eq!(NodeKind::Fitting.input_count(), 1);
}

#[test]
fn meeting_point_is_nearest_common_node() {
    // both branches reach 3, 4 and 5; 5 lies three steps from the fork, 3 and 4 two
    let adj = vec![vec![1, 2], vec![3, 4], vec![4, 3], vec![5], vec![], vec![]];
    assert_eq!(find_convergence(&adj, 0, &vec![1, 2]), Some(3));
    // a common node one step from the fork wins over farther ones listed earlier
    let adj = vec![vec![1, 2, 3], vec![4, 3], vec![4, 3], vec![], vec![]];
    assert_eq!(find_convergence(&adj, 0, &vec![1, 2]), Some(3));
}
