use learn_rust::graph::{breadth_first_search, AdjacencyList, CollectVisitor, GraphNeighbor};

#[test]
fn adjacency_list_test_adjacency_list() {
    let mut graph = AdjacencyList::<String, i32>::new(4);

    assert_eq!(graph.vertices(), 4);
    assert_eq!(graph.edges(), 0);

    graph.set_vertex_data(0, "Node A".to_string());
    graph.set_vertex_data(1, "Node B".to_string());
    graph.set_vertex_data(2, "Node C".to_string());
    graph.set_vertex_data(3, "Node D".to_string());

    assert_eq!(graph.get_vertex_data(0), Some(&"Node A".to_string()));
    assert_eq!(graph.get_vertex_data(1), Some(&"Node B".to_string()));

    graph.add_edge(0, 1, 5);
    graph.add_edge(1, 2, 3);
    graph.add_edge(2, 3, 7);

    assert_eq!(graph.edges(), 3);
    assert_eq!(graph.get_edge(0, 1), Some(&5));
    assert_eq!(graph.get_edge(1, 2), Some(&3));
    assert_eq!(graph.get_edge(2, 3), Some(&7));
    assert_eq!(graph.get_edge(0, 2), None);

    graph.add_edge(0, 1, 10);
    assert_eq!(graph.edges(), 3);
    assert_eq!(graph.get_edge(0, 1), Some(&10));

    graph.remove_edge(1, 2);
    assert_eq!(graph.edges(), 2);
    assert_eq!(graph.get_edge(1, 2), None);
}

#[test]
fn test_bfs_adjacency_list() {
    let mut graph = AdjacencyList::<String, i32>::new(5);

    graph.add_edge(0, 1, 1);
    graph.add_edge(0, 2, 1);
    graph.add_edge(1, 3, 1);
    graph.add_edge(1, 4, 1);
    graph.add_edge(2, 4, 1);

    let mut visitor = CollectVisitor::default();
    breadth_first_search(&graph, 0, &mut visitor, 5);

    assert_eq!(visitor.order.len(), 5);
    assert_eq!(visitor.order[0], 0);

    let pos_1 = visitor.order.iter().position(|&x| x == 1).unwrap();
    let pos_2 = visitor.order.iter().position(|&x| x == 2).unwrap();
    let pos_3 = visitor.order.iter().position(|&x| x == 3).unwrap();
    let pos_4 = visitor.order.iter().position(|&x| x == 4).unwrap();

    assert!(pos_1 < pos_3);
    assert!(pos_1 < pos_4 || pos_2 < pos_4);
}

#[test]
fn list_neighbors_come_in_insertion_order() {
    let mut graph = AdjacencyList::<(), i32>::new(5);
    graph.add_edge(2, 4, 1);
    graph.add_edge(2, 0, 1);
    graph.add_edge(2, 3, 1);
    assert_eq!(graph.first_neighbor(2), Some(4));
    assert_eq!(graph.next_neighbor(2, 4), Some(0));
    assert_eq!(graph.next_neighbor(2, 0), Some(3));
    assert_eq!(graph.next_neighbor(2, 3), None);
    // No entry for 1 in the list of 2: nothing follows it.
    assert_eq!(graph.next_neighbor(2, 1), None);
    assert_eq!(graph.first_neighbor(0), None);
    assert_eq!(graph.first_neighbor(5), None);
    assert_eq!(graph.next_neighbor(5, 0), None);
}

#[test]
fn list_bfs_breaks_ties_by_insertion_order() {
    let mut graph = AdjacencyList::<(), i32>::new(5);
    graph.add_edge(0, 2, 1);
    graph.add_edge(0, 1, 1);
    graph.add_edge(1, 3, 1);
    graph.add_edge(2, 4, 1);
    graph.add_edge(2, 3, 1);
    let mut visitor = CollectVisitor::default();
    breadth_first_search(&graph, 0, &mut visitor, 5);
    assert_eq!(visitor.order, vec![0, 2, 1, 4, 3]);
}

#[test]
fn list_update_keeps_the_place_in_the_list() {
    let mut graph = AdjacencyList::<(), i32>::new(3);
    graph.add_edge(0, 1, 1);
    graph.add_edge(0, 2, 2);
    graph.add_edge(0, 1, 3);
    assert_eq!(graph.edges(), 2);
    assert_eq!(graph.first_neighbor(0), Some(1));
    assert_eq!(graph.next_neighbor(0, 1), Some(2));
    assert_eq!(graph.get_edge(0, 1), Some(&3));
    assert_eq!(graph.get_edge(0, 2), Some(&2));
}

#[test]
fn list_remove_of_a_missing_edge_changes_nothing() {
    let mut graph = AdjacencyList::<(), i32>::new(3);
    graph.add_edge(0, 1, 1);
    graph.remove_edge(1, 0);
    graph.remove_edge(0, 2);
    assert_eq!(graph.edges(), 1);
    assert_eq!(graph.get_edge(0, 1), Some(&1));
    graph.remove_edge(0, 1);
    assert_eq!(graph.edges(), 0);
    assert_eq!(graph.get_edge(0, 1), None);
    assert_eq!(graph.first_neighbor(0), None);
}

#[test]
fn list_remove_from_the_middle_keeps_the_order_of_the_rest() {
    let mut graph = AdjacencyList::<(), i32>::new(4);
    graph.add_edge(0, 3, 30);
    graph.add_edge(0, 1, 10);
    graph.add_edge(0, 2, 20);
    graph.remove_edge(0, 1);
    assert_eq!(graph.edges(), 2);
    assert_eq!(graph.first_neighbor(0), Some(3));
    assert_eq!(graph.next_neighbor(0, 3), Some(2));
    assert_eq!(graph.next_neighbor(0, 2), None);
    assert_eq!(graph.get_edge(0, 2), Some(&20));
}
