use learn_rust::graph::{AdjacencyList, AdjacencyMatrix, SymmetricMatrix};

#[test]
fn graph_test_adjacency_list() {
    let mut graph = AdjacencyList::<String, i32>::new(4);

    assert_eq!(graph.vertices(), 4);
    assert_eq!(graph.edges(), 0);

    graph.set_vertex_data(0, "Node A".to_string());
    graph.set_vertex_data(1, "Node B".to_string());
    graph.set_vertex_data(2, "Node C".to_string());
    graph.set_vertex_data(3, "Node D".to_string());

    assert_eq!(graph.get_vertex_data(0), Some(&"Node A".to_string()));
    assert_eq!(graph.get_vertex_data(1), Some(&"Node B".to_string()));

    graph.add_edge(0, 1, 5);
    graph.add_edge(1, 2, 3);
    graph.add_edge(2, 3, 7);

    assert_eq!(graph.edges(), 3);
    assert_eq!(graph.get_edge(0, 1), Some(&5));
    assert_eq!(graph.get_edge(1, 2), Some(&3));
    assert_eq!(graph.get_edge(2, 3), Some(&7));
    assert_eq!(graph.get_edge(0, 2), None);

    graph.add_edge(0, 1, 10);
    assert_eq!(graph.edges(), 3);
    assert_eq!(graph.get_edge(0, 1), Some(&10));

    graph.remove_edge(1, 2);
    assert_eq!(graph.edges(), 2);
    assert_eq!(graph.get_edge(1, 2), None);
}

#[test]
fn graph_test_adjacency_matrix() {
    let mut graph = AdjacencyMatrix::<String, i32>::new(4);

    assert_eq!(graph.vertices(), 4);
    assert_eq!(graph.edges(), 0);

    graph.set_vertex_data(0, "Node A".to_string());
    graph.set_vertex_data(1, "Node B".to_string());
    graph.set_vertex_data(2, "Node C".to_string());
    graph.set_vertex_data(3, "Node D".to_string());

    assert_eq!(graph.get_vertex_data(0), Some(&"Node A".to_string()));
    assert_eq!(graph.get_vertex_data(1), Some(&"Node B".to_string()));
    assert_eq!(graph.get_vertex_data(2), Some(&"Node C".to_string()));
    assert_eq!(graph.get_vertex_data(3), Some(&"Node D".to_string()));

    graph.add_edge(0, 1, Some(5));
    graph.add_edge(1, 2, Some(3));
    graph.add_edge(2, 3, Some(7));

    assert_eq!(graph.edges(), 3);
    assert_eq!(graph.get_edge(0, 1), Some(&5));
    assert_eq!(graph.get_edge(1, 2), Some(&3));
    assert_eq!(graph.get_edge(2, 3), Some(&7));
    assert_eq!(graph.get_edge(0, 2), None);

    graph.remove_edge(1, 2);
    assert_eq!(graph.edges(), 2);
    assert_eq!(graph.get_edge(1, 2), None);
}

#[test]
fn graph_test_symmetric_matrix() {
    let mut matrix = SymmetricMatrix::new(3);

    matrix.set(0, 0, 1);
    matrix.set(0, 1, 2);
    matrix.set(0, 2, 3);
    matrix.set(1, 1, 4);
    matrix.set(1, 2, 5);
    matrix.set(2, 2, 6);

    assert_eq!(matrix.get(0, 0), 1);
    assert_eq!(matrix.get(0, 1), 2);
    assert_eq!(matrix.get(1, 0), 2);
    assert_eq!(matrix.get(0, 2), 3);
    assert_eq!(matrix.get(2, 0), 3);
    assert_eq!(matrix.get(1, 1), 4);
    assert_eq!(matrix.get(1, 2), 5);
    assert_eq!(matrix.get(2, 1), 5);
    assert_eq!(matrix.get(2, 2), 6);

    let original_matrix = vec![vec![1, 2, 3], vec![2, 4, 5], vec![3, 5, 6]];

    let sym_matrix = SymmetricMatrix::from_matrix(original_matrix.clone());
    let restored_matrix = sym_matrix.to_matrix();

    assert_eq!(original_matrix, restored_matrix);
}
