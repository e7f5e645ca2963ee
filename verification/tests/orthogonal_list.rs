use learn_rust::graph::OrthogonalList;

#[test]
fn test_orthogonal_list() {
    let mut ol = OrthogonalList::<&str, i32>::new();

    let v0 = ol.add_vertex("V0");
    let v1 = ol.add_vertex("V1");
    let v2 = ol.add_vertex("V2");
    let v3 = ol.add_vertex("V3");

    ol.add_edge(v0, v1, 10);
    ol.add_edge(v0, v2, 20);
    ol.add_edge(v2, v3, 30);
    ol.add_edge(v3, v0, 40);

    assert_eq!(ol.edge_count, 4);
    assert_eq!(ol.get_edge(v0, v1), Some(&10));
    assert_eq!(ol.get_edge(v3, v0), Some(&40));
    assert_eq!(ol.get_edge(v1, v2), None);

    ol.remove_edge(v0, v2);
    assert_eq!(ol.edge_count, 3);
    assert_eq!(ol.get_edge(v0, v2), None);

    assert_eq!(ol.get_edge(v0, v1), Some(&10));
}

/// The slots met from `first` along `next`.
fn walk(first: Option<usize>, next: impl Fn(usize) -> Option<usize>) -> Vec<usize> {
    let mut out = Vec::new();
    let mut cur = first;
    while let Some(i) = cur {
        out.push(i);
        cur = next(i);
    }
    out
}

fn out_chain(ol: &OrthogonalList<&str, i32>, v: usize) -> Vec<usize> {
    walk(ol.vertices[v].first_out, |i| ol.arcs[i].as_ref().unwrap().tail_link)
}

fn in_chain(ol: &OrthogonalList<&str, i32>, v: usize) -> Vec<usize> {
    walk(ol.vertices[v].first_in, |i| ol.arcs[i].as_ref().unwrap().head_link)
}

#[test]
fn orthogonal_list_vertices_are_numbered_in_order() {
    let mut ol = OrthogonalList::<&str, i32>::new();
    assert_eq!(ol.add_vertex("a"), 0);
    assert_eq!(ol.add_vertex("b"), 1);
    assert_eq!(ol.get_vertex_data(0), Some(&"a"));
    assert_eq!(ol.get_vertex_data(1), Some(&"b"));
    assert_eq!(ol.get_vertex_data(2), None);
    assert_eq!(ol.edge_count, 0);
}

#[test]
fn orthogonal_list_chains_hold_the_newest_arc_first() {
    let mut ol = OrthogonalList::<&str, i32>::new();
    for name in ["a", "b", "c"] {
        ol.add_vertex(name);
    }
    ol.add_edge(0, 1, 1);
    ol.add_edge(0, 2, 2);
    ol.add_edge(1, 2, 3);
    ol.add_edge(0, 0, 4);
    assert_eq!(out_chain(&ol, 0), vec![3, 1, 0]);
    assert_eq!(out_chain(&ol, 1), vec![2]);
    assert_eq!(out_chain(&ol, 2), Vec::<usize>::new());
    assert_eq!(in_chain(&ol, 0), vec![3]);
    assert_eq!(in_chain(&ol, 1), vec![0]);
    assert_eq!(in_chain(&ol, 2), vec![2, 1]);
    assert_eq!(ol.get_edge(0, 0), Some(&4));
}

#[test]
fn orthogonal_list_removal_takes_the_arc_out_of_both_chains() {
    let mut ol = OrthogonalList::<&str, i32>::new();
    for name in ["a", "b", "c", "d"] {
        ol.add_vertex(name);
    }
    ol.add_edge(0, 3, 1); // slot 0
    ol.add_edge(1, 3, 2); // slot 1
    ol.add_edge(0, 2, 3); // slot 2
    ol.add_edge(2, 3, 4); // slot 3
    ol.add_edge(0, 1, 5); // slot 4
    assert_eq!(out_chain(&ol, 0), vec![4, 2, 0]);
    assert_eq!(in_chain(&ol, 3), vec![3, 1, 0]);

    // From the middle of the in-chain, from the head of the out-chain.
    ol.remove_edge(1, 3);
    assert!(ol.arcs[1].is_none());
    assert_eq!(in_chain(&ol, 3), vec![3, 0]);
    assert_eq!(out_chain(&ol, 1), Vec::<usize>::new());
    assert_eq!(ol.edge_count, 4);

    // From the middle of the out-chain.
    ol.remove_edge(0, 2);
    assert!(ol.arcs[2].is_none());
    assert_eq!(out_chain(&ol, 0), vec![4, 0]);
    assert_eq!(in_chain(&ol, 2), Vec::<usize>::new());

    // From the end of both.
    ol.remove_edge(0, 3);
    assert_eq!(out_chain(&ol, 0), vec![4]);
    assert_eq!(in_chain(&ol, 3), vec![3]);
    assert_eq!(ol.edge_count, 2);
    assert_eq!(ol.get_edge(0, 1), Some(&5));
    assert_eq!(ol.get_edge(2, 3), Some(&4));
    assert_eq!(ol.get_edge(0, 3), None);

    // A new arc goes to a fresh slot; emptied slots stay empty.
    ol.add_edge(0, 3, 6);
    assert_eq!(ol.arcs.len(), 6);
    assert_eq!(out_chain(&ol, 0), vec![5, 4]);
    assert_eq!(in_chain(&ol, 3), vec![5, 3]);
}

#[test]
fn orthogonal_list_missing_or_out_of_range_arcs_are_not_found() {
    let mut ol = OrthogonalList::<&str, i32>::new();
    ol.add_vertex("a");
    ol.add_vertex("b");
    ol.add_edge(0, 1, 1);
    assert_eq!(ol.get_edge(1, 0), None);
    assert_eq!(ol.get_edge(0, 7), None);
    assert_eq!(ol.get_edge(7, 0), None);
    ol.remove_edge(1, 0);
    ol.remove_edge(0, 7);
    ol.remove_edge(7, 0);
    assert_eq!(ol.edge_count, 1);
    assert_eq!(ol.get_edge(0, 1), Some(&1));
}

#[test]
fn orthogonal_list_parallel_arcs_come_off_newest_first() {
    let mut ol = OrthogonalList::<&str, i32>::new();
    ol.add_vertex("a");
    ol.add_vertex("b");
    ol.add_edge(0, 1, 1);
    ol.add_edge(0, 1, 2);
    assert_eq!(ol.edge_count, 2);
    assert_eq!(ol.get_edge(0, 1), Some(&2));
    ol.remove_edge(0, 1);
    assert_eq!(ol.get_edge(0, 1), Some(&1));
    ol.remove_edge(0, 1);
    assert_eq!(ol.get_edge(0, 1), None);
    assert_eq!(ol.edge_count, 0);
}
