use learn_rust::graph::SymmetricMatrix;

#[test]
fn symmetric_matrix_test_symmetric_matrix() {
    let mut matrix = SymmetricMatrix::new(3);

    matrix.set(0, 0, 1);
    matrix.set(0, 1, 2);
    matrix.set(0, 2, 3);
    matrix.set(1, 1, 4);
    matrix.set(1, 2, 5);
    matrix.set(2, 2, 6);

    assert_eq!(matrix.get(0, 0), 1);
    assert_eq!(matrix.get(0, 1), 2);
    assert_eq!(matrix.get(1, 0), 2);
    assert_eq!(matrix.get(0, 2), 3);
    assert_eq!(matrix.get(2, 0), 3);
    assert_eq!(matrix.get(1, 1), 4);
    assert_eq!(matrix.get(1, 2), 5);
    assert_eq!(matrix.get(2, 1), 5);
    assert_eq!(matrix.get(2, 2), 6);

    let original_matrix = vec![vec![1, 2, 3], vec![2, 4, 5], vec![3, 5, 6]];

    let sym_matrix = SymmetricMatrix::from_matrix(original_matrix.clone());
    let restored_matrix = sym_matrix.to_matrix();

    assert_eq!(original_matrix, restored_matrix);
}

#[test]
fn symmetric_matrix_starts_with_zeros() {
    let matrix = SymmetricMatrix::new(3);
    assert_eq!(matrix.size(), 3);
    assert_eq!(matrix.to_matrix(), vec![vec![0, 0, 0], vec![0, 0, 0], vec![0, 0, 0]]);
    let empty = SymmetricMatrix::new(0);
    assert_eq!(empty.size(), 0);
    assert_eq!(empty.to_matrix(), Vec::<Vec<i32>>::new());
}

#[test]
fn symmetric_matrix_keeps_cells_apart() {
    // Every cell of the lower triangle gets its own value; none overwrites another.
    let n = 6;
    let mut matrix = SymmetricMatrix::new(n);
    for r in 0..n {
        for c in 0..=r {
            matrix.set(c, r, (r * 10 + c) as i32);
        }
    }
    for r in 0..n {
        for c in 0..=r {
            assert_eq!(matrix.get(r, c), (r * 10 + c) as i32);
            assert_eq!(matrix.get(c, r), (r * 10 + c) as i32);
        }
    }
}

#[test]
fn symmetric_matrix_reads_only_the_lower_triangle() {
    let skew = vec![vec![1, 9, 9], vec![2, 3, 9], vec![4, 5, 6]];
    let packed = SymmetricMatrix::from_matrix(skew);
    assert_eq!(packed.to_matrix(), vec![vec![1, 2, 4], vec![2, 3, 5], vec![4, 5, 6]]);
}

#[test]
fn symmetric_matrix_later_write_wins_on_either_side() {
    let mut matrix = SymmetricMatrix::new(2);
    matrix.set(0, 1, 7);
    matrix.set(1, 0, 8);
    assert_eq!(matrix.get(0, 1), 8);
    assert_eq!(matrix.get(1, 0), 8);
    assert_eq!(matrix.get(0, 0), 0);
    assert_eq!(matrix.get(1, 1), 0);
}

#[test]
fn symmetric_matrix_round_trip_of_a_symmetric_matrix() {
    let n = 5;
    let mut full = vec![vec![0i32; n]; n];
    for r in 0..n {
        for c in 0..n {
            let (hi, lo) = if r >= c { (r, c) } else { (c, r) };
            full[r][c] = (hi * 7 + lo * 3) as i32 - 9;
        }
    }
    let packed = SymmetricMatrix::from_matrix(full.clone());
    assert_eq!(packed.size(), n);
    assert_eq!(packed.to_matrix(), full);
    let single = vec![vec![-4]];
    assert_eq!(SymmetricMatrix::from_matrix(single.clone()).to_matrix(), single);
    let none: Vec<Vec<i32>> = Vec::new();
    assert_eq!(SymmetricMatrix::from_matrix(none.clone()).to_matrix(), none);
}
