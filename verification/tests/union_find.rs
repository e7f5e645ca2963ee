use learn_rust::union_find::UnionFind;

#[test]
fn union_find_starts_with_singletons() {
    let mut sets = UnionFind::new(4);
    for i in 0..4 {
        assert_eq!(sets.find(i), Ok(i));
    }
}

#[test]
fn union_find_rejects_what_is_out_of_range() {
    let mut sets = UnionFind::new(3);
    assert_eq!(sets.find(-1), Err("index out of bounds"));
    assert_eq!(sets.find(3), Err("index out of bounds"));
    assert_eq!(sets.union(0, 3), Err("index out of bounds"));
    assert_eq!(sets.union(-1, 0), Err("index out of bounds"));
    let mut empty = UnionFind::new(0);
    assert_eq!(empty.find(0), Err("index out of bounds"));
    // Nothing was merged on the way.
    assert_eq!(sets.find(0), Ok(0));
    assert_eq!(sets.find(1), Ok(1));
    assert_eq!(sets.find(2), Ok(2));
}

#[test]
fn union_find_links_the_smaller_set_to_the_larger() {
    let mut sets = UnionFind::new(6);
    // Equal sizes: the root of the second argument wins.
    assert_eq!(sets.union(0, 1), Ok(()));
    assert_eq!(sets.find(0), Ok(1));
    assert_eq!(sets.find(1), Ok(1));
    // {0, 1} is larger than {2}: its root wins from either side.
    assert_eq!(sets.union(0, 2), Ok(()));
    assert_eq!(sets.find(2), Ok(1));
    assert_eq!(sets.union(3, 0), Ok(()));
    assert_eq!(sets.find(3), Ok(1));
    // Others are untouched.
    assert_eq!(sets.find(4), Ok(4));
    assert_eq!(sets.find(5), Ok(5));
    // Merging a set with itself changes nothing.
    assert_eq!(sets.union(2, 3), Ok(()));
    assert_eq!(sets.find(2), Ok(1));
    assert_eq!(sets.find(3), Ok(1));
}

#[test]
fn union_find_merges_whole_sets() {
    let mut sets = UnionFind::new(8);
    sets.union(0, 1).unwrap();
    sets.union(2, 3).unwrap();
    sets.union(4, 5).unwrap();
    sets.union(1, 3).unwrap();
    let a = sets.find(0).unwrap();
    for i in 0..4 {
        assert_eq!(sets.find(i), Ok(a));
    }
    let b = sets.find(4).unwrap();
    assert_eq!(sets.find(5), Ok(b));
    assert_ne!(a, b);
    sets.union(5, 0).unwrap();
    // Four elements against two: the root of the four wins.
    for i in 0..6 {
        assert_eq!(sets.find(i), Ok(a));
    }
    assert_eq!(sets.find(6), Ok(6));
    assert_eq!(sets.find(7), Ok(7));
}

#[test]
fn union_find_find_is_stable() {
    let mut sets = UnionFind::new(5);
    sets.union(0, 1).unwrap();
    sets.union(2, 3).unwrap();
    sets.union(0, 2).unwrap();
    sets.union(4, 0).unwrap();
    let root = sets.find(0).unwrap();
    for _ in 0..3 {
        for i in 0..5 {
            assert_eq!(sets.find(i), Ok(root));
        }
    }
}
