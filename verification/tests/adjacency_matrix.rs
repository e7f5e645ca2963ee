use learn_rust::graph::{breadth_first_search, AdjacencyMatrix, CollectVisitor, GraphNeighbor};

#[test]
fn adjacency_matrix_test_adjacency_matrix() {
    let mut graph = AdjacencyMatrix::<String, i32>::new(4);

    assert_eq!(graph.vertices(), 4);
    assert_eq!(graph.edges(), 0);

    graph.set_vertex_data(0, "Node A".to_string());
    graph.set_vertex_data(1, "Node B".to_string());
    graph.set_vertex_data(2, "Node C".to_string());
    graph.set_vertex_data(3, "Node D".to_string());

    assert_eq!(graph.get_vertex_data(0), Some(&"Node A".to_string()));
    assert_eq!(graph.get_vertex_data(1), Some(&"Node B".to_string()));
    assert_eq!(graph.get_vertex_data(2), Some(&"Node C".to_string()));
    assert_eq!(graph.get_vertex_data(3), Some(&"Node D".to_string()));

    graph.add_edge(0, 1, Some(5));
    graph.add_edge(1, 2, Some(3));
    graph.add_edge(2, 3, Some(7));

    assert_eq!(graph.edges(), 3);
    assert_eq!(graph.get_edge(0, 1), Some(&5));
    assert_eq!(graph.get_edge(1, 2), Some(&3));
    assert_eq!(graph.get_edge(2, 3), Some(&7));
    assert_eq!(graph.get_edge(0, 2), None);

    graph.remove_edge(1, 2);
    assert_eq!(graph.edges(), 2);
    assert_eq!(graph.get_edge(1, 2), None);
}

#[test]
fn test_bfs_adjacency_matrix() {
    let mut graph = AdjacencyMatrix::<String, i32>::new(5);

    graph.add_edge(0, 1, Some(1));
    graph.add_edge(0, 2, Some(1));
    graph.add_edge(1, 3, Some(1));
    graph.add_edge(1, 4, Some(1));
    graph.add_edge(2, 4, Some(1));

    let mut visitor = CollectVisitor::default();
    breadth_first_search(&graph, 0, &mut visitor, 5);

    assert_eq!(visitor.order, vec![0, 1, 2, 3, 4]);
}

#[test]
fn test_graph_neighbor_trait() {
    let mut graph = AdjacencyMatrix::<String, i32>::new(4);
    graph.add_edge(0, 1, Some(1));
    graph.add_edge(0, 2, Some(1));
    graph.add_edge(1, 3, Some(1));

    assert_eq!(graph.first_neighbor(0), Some(1));
    assert_eq!(graph.first_neighbor(1), Some(3));
    assert_eq!(graph.first_neighbor(2), None);
    assert_eq!(graph.first_neighbor(3), None);

    assert_eq!(graph.next_neighbor(0, 1), Some(2));
    assert_eq!(graph.next_neighbor(0, 2), None);
    assert_eq!(graph.next_neighbor(1, 3), None);
}

#[test]
fn matrix_starts_without_payloads_or_edges() {
    let graph = AdjacencyMatrix::<String, i32>::new(3);
    for v in 0..3 {
        assert_eq!(graph.get_vertex_data(v), None);
        for w in 0..3 {
            assert_eq!(graph.get_edge(v, w), None);
        }
    }
    let empty = AdjacencyMatrix::<String, i32>::new(0);
    assert_eq!(empty.vertices(), 0);
    assert_eq!(empty.edges(), 0);
}

#[test]
fn matrix_counter_moves_only_when_an_edge_appears_or_goes() {
    let mut graph = AdjacencyMatrix::<(), i32>::new(3);
    graph.add_edge(0, 1, Some(4));
    assert_eq!(graph.edges(), 1);
    graph.add_edge(0, 1, Some(9));
    assert_eq!(graph.edges(), 1);
    assert_eq!(graph.get_edge(0, 1), Some(&9));
    graph.add_edge(2, 2, None);
    assert_eq!(graph.edges(), 1);
    graph.add_edge(0, 1, None);
    assert_eq!(graph.edges(), 0);
    assert_eq!(graph.get_edge(0, 1), None);
    graph.remove_edge(0, 1);
    assert_eq!(graph.edges(), 0);
    graph.add_edge(1, 1, Some(7));
    assert_eq!(graph.get_edge(1, 1), Some(&7));
    assert_eq!(graph.edges(), 1);
}

#[test]
fn matrix_edges_are_directed() {
    let mut graph = AdjacencyMatrix::<(), i32>::new(2);
    graph.add_edge(0, 1, Some(1));
    assert_eq!(graph.get_edge(0, 1), Some(&1));
    assert_eq!(graph.get_edge(1, 0), None);
}

#[test]
fn matrix_neighbors_come_in_increasing_order() {
    let mut graph = AdjacencyMatrix::<(), i32>::new(5);
    graph.add_edge(2, 4, Some(1));
    graph.add_edge(2, 0, Some(1));
    graph.add_edge(2, 3, Some(1));
    assert_eq!(graph.first_neighbor(2), Some(0));
    assert_eq!(graph.next_neighbor(2, 0), Some(3));
    assert_eq!(graph.next_neighbor(2, 3), Some(4));
    assert_eq!(graph.next_neighbor(2, 4), None);
    // A vertex that is no neighbour still has neighbours above it.
    assert_eq!(graph.next_neighbor(2, 1), Some(3));
    // Out of range on either side: nothing.
    assert_eq!(graph.first_neighbor(5), None);
    assert_eq!(graph.next_neighbor(5, 0), None);
    assert_eq!(graph.next_neighbor(2, 5), None);
}

#[test]
fn bfs_from_a_vertex_without_edges_visits_it_alone() {
    let mut graph = AdjacencyMatrix::<(), i32>::new(4);
    graph.add_edge(0, 1, Some(1));
    graph.add_edge(1, 3, Some(1));
    let mut visitor = CollectVisitor::default();
    breadth_first_search(&graph, 2, &mut visitor, 4);
    assert_eq!(visitor.order, vec![2]);
}

#[test]
fn bfs_skips_what_cannot_be_reached_and_visits_nothing_twice() {
    let mut graph = AdjacencyMatrix::<(), i32>::new(6);
    graph.add_edge(0, 2, Some(1));
    graph.add_edge(2, 0, Some(1));
    graph.add_edge(2, 2, Some(1));
    graph.add_edge(2, 1, Some(1));
    graph.add_edge(1, 0, Some(1));
    graph.add_edge(4, 5, Some(1));
    graph.add_edge(3, 0, Some(1));
    let mut visitor = CollectVisitor::default();
    breadth_first_search(&graph, 0, &mut visitor, 6);
    assert_eq!(visitor.order, vec![0, 2, 1]);
    // A second search goes on in the same visitor.
    breadth_first_search(&graph, 4, &mut visitor, 6);
    assert_eq!(visitor.order, vec![0, 2, 1, 4, 5]);
}
