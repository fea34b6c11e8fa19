use rume::{BuildError, DirectedGraph, Sortable, TopologicalSort};

/// Validate that the graph type reports adjacent nodes as expected.
///
/// [root] -> [0]
///      |--> [1]
///      |--> [2]
#[test]
fn test_graph_returns_adjacent_nodes() {
    const NUM_NODES: usize = 4;
    let mut graph = DirectedGraph::with_size(NUM_NODES);
    graph.connect(3, 0);
    graph.connect(3, 1);
    graph.connect(3, 2);

    for i in 0..NUM_NODES - 1 {
        assert!(graph.next_nodes(i).is_empty());
        assert!(graph.next_nodes(NUM_NODES - 1).contains(&i));
    }

    let sorted_order = TopologicalSort::sort(&graph).unwrap();
    assert_eq!(sorted_order.len(), NUM_NODES);
    assert_eq!(sorted_order[0], NUM_NODES - 1);
}

///
///  [0] -> [1] -> [3] -> [4]
///    |--> [2]
#[test]
fn no_ordering_for_ordered_graph() {
    let mut graph = DirectedGraph::with_size(5);
    graph.connect(0, 1);
    graph.connect(0, 2);
    graph.connect(1, 3);
    graph.connect(3, 4);

    let order = TopologicalSort::sort(&graph).unwrap();
    assert_eq!(order[0], 0);
    assert!([1, 2].contains(&order[1]));
    assert!([1, 2].contains(&order[2]));
    assert_eq!(order[3], 3);
    assert_eq!(order[4], 4);
}

///
///  [7] -> [5] -> [4] -> [3] -> [0]
///           |--> [1] -> [6]
///           |--> [2]
#[test]
fn ordering_for_an_unordered_graph() {
    let mut graph = DirectedGraph::with_size(8);
    graph.connect(7, 5);
    graph.connect(5, 4);
    graph.connect(5, 1);
    graph.connect(5, 2);
    graph.connect(4, 3);
    graph.connect(3, 0);
    graph.connect(1, 6);

    let order = TopologicalSort::sort(&graph).unwrap();
    assert_eq!(order[0], 7);
    assert_eq!(order[1], 5);
    assert_eq!(order[2], 4);
    assert_eq!(order[3], 3);
    assert_eq!(order[4], 2);
    assert_eq!(order[5], 1);
    assert_eq!(order[6], 6);
    assert_eq!(order[7], 0);
}

#[test]
fn reverse_sort_reverses_the_order() {
    let mut graph = DirectedGraph::with_size(3);
    graph.connect(2, 1);
    graph.connect(1, 0);

    let order = TopologicalSort::sort(&graph).unwrap();
    let reversed = TopologicalSort::reverse_sort(&graph).unwrap();
    assert_eq!(order, vec![2, 1, 0]);
    assert_eq!(reversed, vec![0, 1, 2]);
}

#[test]
fn sorting_a_cyclic_graph_fails() {
    let mut graph = DirectedGraph::with_size(3);
    graph.connect(0, 1);
    graph.connect(1, 2);
    graph.connect(2, 0);

    assert_eq!(TopologicalSort::sort(&graph), Err(BuildError::CycleDetected));
    assert_eq!(TopologicalSort::reverse_sort(&graph), Err(BuildError::CycleDetected));
}

#[test]
fn disconnected_components_are_all_ordered() {
    let mut graph = DirectedGraph::with_size(4);
    graph.connect(1, 0);
    graph.connect(3, 2);

    let order = TopologicalSort::sort(&graph).unwrap();
    assert_eq!(order.len(), 4);
    let pos = |x: usize| order.iter().position(|&v| v == x).unwrap();
    assert!(pos(1) < pos(0));
    assert!(pos(3) < pos(2));
}
