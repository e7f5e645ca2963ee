use learn_rust::graph::AdjacencyMultilist;

#[test]
fn test_adjacency_multilist() {
    let mut aml = AdjacencyMultilist::<&str, i32>::new();

    let v0 = aml.add_vertex("A");
    let v1 = aml.add_vertex("B");
    let v2 = aml.add_vertex("C");

    aml.add_edge(v0, v1, 1);
    aml.add_edge(v1, v2, 2);
    aml.add_edge(v0, v2, 3);

    assert_eq!(aml.edge_count, 3);

    aml.remove_edge(v0, v2);
    assert_eq!(aml.edge_count, 2);

    aml.remove_edge(v1, v2);
    assert_eq!(aml.edge_count, 1);
}

/// The slots of the edges at `v`, in chain order.
fn chain(aml: &AdjacencyMultilist<&str, i32>, v: usize) -> Vec<usize> {
    let mut out = Vec::new();
    let mut cur = aml.vertices[v].first_edge;
    while let Some(i) = cur {
        out.push(i);
        let e = aml.edges[i].as_ref().unwrap();
        cur = if e.ivex == v { e.ilink } else { e.jlink };
    }
    out
}

#[test]
fn multilist_vertices_are_numbered_in_order() {
    let mut aml = AdjacencyMultilist::<&str, i32>::new();
    assert_eq!(aml.add_vertex("a"), 0);
    assert_eq!(aml.add_vertex("b"), 1);
    assert_eq!(aml.get_vertex_data(1), Some(&"b"));
    assert_eq!(aml.get_vertex_data(2), None);
}

#[test]
fn multilist_one_record_serves_both_endpoints() {
    let mut aml = AdjacencyMultilist::<&str, i32>::new();
    for name in ["a", "b", "c", "d"] {
        aml.add_vertex(name);
    }
    aml.add_edge(0, 1, 1); // slot 0
    aml.add_edge(2, 0, 2); // slot 1
    aml.add_edge(1, 2, 3); // slot 2
    aml.add_edge(0, 3, 4); // slot 3
    assert_eq!(aml.edges.len(), 4);
    assert_eq!(chain(&aml, 0), vec![3, 1, 0]);
    assert_eq!(chain(&aml, 1), vec![2, 0]);
    assert_eq!(chain(&aml, 2), vec![2, 1]);
    assert_eq!(chain(&aml, 3), vec![3]);
}

#[test]
fn multilist_removal_takes_the_edge_out_of_both_chains() {
    let mut aml = AdjacencyMultilist::<&str, i32>::new();
    for name in ["a", "b", "c", "d"] {
        aml.add_vertex(name);
    }
    aml.add_edge(0, 1, 1); // slot 0
    aml.add_edge(2, 0, 2); // slot 1
    aml.add_edge(1, 2, 3); // slot 2
    aml.add_edge(0, 3, 4); // slot 3

    // Named in the other order than it was stored.
    aml.remove_edge(0, 2);
    assert!(aml.edges[1].is_none());
    assert_eq!(chain(&aml, 0), vec![3, 0]);
    assert_eq!(chain(&aml, 2), vec![2]);
    assert_eq!(chain(&aml, 1), vec![2, 0]);
    assert_eq!(aml.edge_count, 3);

    aml.remove_edge(1, 0);
    assert_eq!(chain(&aml, 0), vec![3]);
    assert_eq!(chain(&aml, 1), vec![2]);
    assert_eq!(aml.edge_count, 2);

    aml.remove_edge(3, 0);
    assert_eq!(chain(&aml, 0), Vec::<usize>::new());
    assert_eq!(chain(&aml, 3), Vec::<usize>::new());
    assert_eq!(aml.edge_count, 1);
}

#[test]
fn multilist_missing_edges_and_bad_indices_change_nothing() {
    let mut aml = AdjacencyMultilist::<&str, i32>::new();
    aml.add_vertex("a");
    aml.add_vertex("b");
    aml.add_vertex("c");
    aml.add_edge(0, 1, 1);
    aml.remove_edge(0, 2);
    aml.remove_edge(1, 1);
    aml.remove_edge(0, 9);
    aml.remove_edge(9, 0);
    assert_eq!(aml.edge_count, 1);
    assert_eq!(chain(&aml, 0), vec![0]);
    assert_eq!(chain(&aml, 1), vec![0]);
}

#[test]
fn multilist_parallel_edges_come_off_newest_first() {
    let mut aml = AdjacencyMultilist::<&str, i32>::new();
    aml.add_vertex("a");
    aml.add_vertex("b");
    aml.add_edge(0, 1, 1);
    aml.add_edge(1, 0, 2);
    assert_eq!(chain(&aml, 0), vec![1, 0]);
    assert_eq!(chain(&aml, 1), vec![1, 0]);
    aml.remove_edge(0, 1);
    assert!(aml.edges[1].is_none());
    assert_eq!(aml.edges[0].as_ref().unwrap().weight, 1);
    assert_eq!(chain(&aml, 0), vec![0]);
    assert_eq!(chain(&aml, 1), vec![0]);
    assert_eq!(aml.edge_count, 1);
}
