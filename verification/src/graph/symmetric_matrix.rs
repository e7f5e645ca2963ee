//! Compressed storage for a symmetric integer matrix.

use vstd::prelude::*;

verus! {

/// Number of cells in the first `r` rows of a lower triangle: `r * (r + 1) / 2`.
pub open spec fn triangle(r: int) -> int {
    r * (r + 1) / 2
}

/// Position of the cell `(row, col)` in the packed lower triangle.
pub open spec fn packed_index(row: int, col: int) -> int {
    if row >= col {
        triangle(row) + col
    } else {
        triangle(col) + row
    }
}

/// The square matrix that reads its upper triangle from the lower one of `m`.
pub open spec fn mirror_lower(m: Seq<Seq<i32>>) -> Seq<Seq<i32>> {
    Seq::new(
        m.len(),
        |i: int| Seq::new(m.len(), |j: int| if i >= j { m[i][j] } else { m[j][i] }),
    )
}

/// `m` has as many columns in every row as it has rows.
pub open spec fn is_square(m: Seq<Seq<i32>>) -> bool {
    forall|i: int| 0 <= i < m.len() ==> (#[trigger] m[i]).len() == m.len()
}

/// `m` is square and equal to its transpose.
pub open spec fn is_symmetric(m: Seq<Seq<i32>>) -> bool {
    &&& is_square(m)
    &&& forall|i: int, j: int| 0 <= i < m.len() && 0 <= j < m.len() ==> m[i][j] == m[j][i]
}

/// Each row of the triangle starts right after the previous one ends.
pub proof fn lemma_triangle_step(r: int)
    requires
        0 <= r,
    ensures
        triangle(r + 1) == triangle(r) + r + 1,
        triangle(r) >= 0,
{
    assert((r + 1) * (r + 2) == r * (r + 1) + 2 * (r + 1)) by (nonlinear_arith);
    assert(r * (r + 1) >= 0) by (nonlinear_arith)
        requires
            0 <= r,
    ;
}

/// The triangle numbers grow with the row.
pub proof fn lemma_triangle_monotonic(a: int, b: int)
    requires
        0 <= a <= b,
    ensures
        triangle(a) <= triangle(b),
    decreases b - a,
{
    if a < b {
        lemma_triangle_monotonic(a, b - 1);
        lemma_triangle_step(b - 1);
    }
}

/// Two cells of the lower triangle share a packed position only if they are the same cell.
pub proof fn lemma_packed_index_injective(r1: int, c1: int, r2: int, c2: int)
    requires
        0 <= c1 <= r1,
        0 <= c2 <= r2,
        triangle(r1) + c1 == triangle(r2) + c2,
    ensures
        r1 == r2,
        c1 == c2,
{
    if r1 < r2 {
        lemma_triangle_step(r1);
        lemma_triangle_monotonic(r1 + 1, r2);
    } else if r2 < r1 {
        lemma_triangle_step(r2);
        lemma_triangle_monotonic(r2 + 1, r1);
    }
}

/// Every cell of an `n`-by-`n` matrix has its packed position below `triangle(n)`.
pub proof fn lemma_packed_index_bound(row: int, col: int, n: int)
    requires
        0 <= row < n,
        0 <= col < n,
    ensures
        0 <= packed_index(row, col) < triangle(n),
{
    let r = if row >= col { row } else { col };
    lemma_triangle_step(r);
    lemma_triangle_monotonic(r + 1, n);
}

/// A symmetric `n`-by-`n` integer matrix that stores only its lower triangle.
#[derive(Debug, Clone)]
pub struct SymmetricMatrix {
    size: usize,
    elements: Vec<i32>,
}

impl SymmetricMatrix {
    /// The packed storage has exactly one cell for each cell of the lower triangle.
    pub closed spec fn wf(&self) -> bool {
        &&& self.size * (self.size + 1) <= usize::MAX
        &&& self.elements@.len() == triangle(self.size as int)
    }

    /// The number of rows (and columns).
    pub closed spec fn spec_size(&self) -> nat {
        self.size as nat
    }

    /// The value at `(row, col)`, for `row` and `col` below the size.
    pub closed spec fn cell(&self, row: int, col: int) -> i32 {
        self.elements@[packed_index(row, col)]
    }

    /// The full square matrix that this value stands for.
    pub open spec fn view(&self) -> Seq<Seq<i32>> {
        Seq::new(
            self.spec_size(),
            |i: int| Seq::new(self.spec_size(), |j: int| self.cell(i, j)),
        )
    }

    /// A `size`-by-`size` matrix of zeros.
    pub fn new(size: usize) -> (m: Self)
        requires
            size * (size + 1) <= usize::MAX,
        ensures
            m.wf(),
            m.spec_size() == size,
            forall|i: int, j: int| 0 <= i < size && 0 <= j < size ==> m.cell(i, j) == 0,
    {
        assert(size + 1 <= usize::MAX) by (nonlinear_arith)
            requires
                size * (size + 1) <= usize::MAX,
        ;
        let capacity = size * (size + 1) / 2;
        let m = SymmetricMatrix { size, elements: vec![0; capacity] };
        proof {
            assert forall|i: int, j: int| 0 <= i < size && 0 <= j < size implies m.cell(i, j)
                == 0 by {
                lemma_packed_index_bound(i, j, size as int);
            }
        }
        m
    }

    /// Packs the lower triangle of a square matrix; the upper triangle is not read.
    pub fn from_matrix(matrix: Vec<Vec<i32>>) -> (m: Self)
        requires
            is_square(matrix.deep_view()),
            matrix.len() * (matrix.len() + 1) <= usize::MAX,
        ensures
            m.wf(),
            m.spec_size() == matrix.len(),
            m@ == mirror_lower(matrix.deep_view()),
    {
        let size = matrix.len();
        let mut result = SymmetricMatrix::new(size);
        let ghost src = matrix.deep_view();
        for i in 0..size
            invariant
                result.wf(),
                result.spec_size() == size,
                size == matrix.len(),
                src == matrix.deep_view(),
                is_square(src),
                forall|a: int, b: int|
                    0 <= b <= a < i ==> result.cell(a, b) == src[a][b],
        {
            for j in 0..(i + 1)
                invariant
                    result.wf(),
                    result.spec_size() == size,
                    size == matrix.len(),
                    src == matrix.deep_view(),
                    is_square(src),
                    i < size,
                    forall|a: int, b: int|
                        0 <= b <= a < i ==> result.cell(a, b) == src[a][b],
                    forall|b: int| 0 <= b < j ==> result.cell(i as int, b) == src[i as int][b],
            {
                assert(src[i as int].len() == size);
                assert(matrix[i as int].deep_view() == src[i as int]);
                assert(matrix[i as int]@.len() == size);
                let value = matrix[i][j];
                assert(value == src[i as int][j as int]);
                result.set(i, j, value);
            }
        }
        proof {
            let full = mirror_lower(src);
            assert(result@.len() == full.len());
            assert forall|a: int| 0 <= a < size implies result@[a] == full[a] by {
                assert forall|b: int| 0 <= b < size implies result@[a][b] == full[a][b] by {
                    if a >= b {
                        assert(result.cell(a, b) == src[a][b]);
                    } else {
                        result.lemma_cell_symmetric(a, b);
                        assert(result.cell(b, a) == src[b][a]);
                    }
                }
                assert(result@[a] =~= full[a]);
            }
            assert(result@ =~= full);
        }
        result
    }

    /// The number of rows (and columns).
    pub fn size(&self) -> (n: usize)
        ensures
            n == self.spec_size(),
    {
        self.size
    }

    /// Maps `(row, col)` to its place in the packed lower triangle.
    fn to_index(&self, row: usize, col: usize) -> (index: usize)
        requires
            self.wf(),
            row < self.spec_size(),
            col < self.spec_size(),
        ensures
            index == packed_index(row as int, col as int),
            index < self.elements@.len(),
    {
        let (r, c) = if row >= col {
            (row, col)
        } else {
            (col, row)
        };
        proof {
            lemma_packed_index_bound(row as int, col as int, self.size as int);
            lemma_triangle_step(r as int);
            lemma_triangle_monotonic(r as int + 1, self.size as int);
            assert(r * (r + 1) <= self.size * (self.size + 1) && r + 1 <= self.size * (self.size
                + 1)) by (nonlinear_arith)
                requires
                    0 <= r < self.size,
            ;
        }
        r * (r + 1) / 2 + c
    }

    /// Writes `value` to the cell shared by `(row, col)` and `(col, row)`.
    pub fn set(&mut self, row: usize, col: usize, value: i32)
        requires
            old(self).wf(),
            row < old(self).spec_size(),
            col < old(self).spec_size(),
        ensures
            final(self).wf(),
            final(self).spec_size() == old(self).spec_size(),
            forall|i: int, j: int|
                0 <= i < old(self).spec_size() && 0 <= j < old(self).spec_size()
                    ==> #[trigger] final(self).cell(i, j) == (if (i == row && j == col) || (i
                    == col && j == row) {
                    value
                } else {
                    old(self).cell(i, j)
                }),
    {
        let index = self.to_index(row, col);
        self.elements[index] = value;
        proof {
            assert forall|i: int, j: int|
                0 <= i < old(self).spec_size() && 0 <= j < old(self).spec_size()
                    implies #[trigger] self.cell(i, j) == (if (i == row && j == col) || (i == col
                && j == row) {
                value
            } else {
                old(self).cell(i, j)
            }) by {
                lemma_packed_index_bound(i, j, self.size as int);
                if packed_index(i, j) == index {
                    let (r1, c1) = if i >= j { (i, j) } else { (j, i) };
                    let (r2, c2) = if row >= col { (row as int, col as int) } else { (col as int, row as int) };
                    lemma_packed_index_injective(r1, c1, r2, c2);
                }
            }
        }
    }

    /// Reads the cell shared by `(row, col)` and `(col, row)`.
    pub fn get(&self, row: usize, col: usize) -> (value: i32)
        requires
            self.wf(),
            row < self.spec_size(),
            col < self.spec_size(),
        ensures
            value == self.cell(row as int, col as int),
            value == self@[row as int][col as int],
    {
        let index = self.to_index(row, col);
        self.elements[index]
    }

    /// Unpacks into the full square matrix.
    pub fn to_matrix(&self) -> (matrix: Vec<Vec<i32>>)
        requires
            self.wf(),
        ensures
            matrix.deep_view() == self@,
    {
        let mut matrix: Vec<Vec<i32>> = Vec::with_capacity(self.size);
        for i in 0..self.size
            invariant
                self.wf(),
                matrix@.len() == i,
                forall|a: int| 0 <= a < i ==> (#[trigger] matrix@[a])@ == self@[a],
        {
            let mut row: Vec<i32> = Vec::with_capacity(self.size);
            for j in 0..self.size
                invariant
                    self.wf(),
                    i < self.size,
                    row@.len() == j,
                    forall|b: int| 0 <= b < j ==> row@[b] == self.cell(i as int, b),
            {
                row.push(self.get(i, j));
            }
            assert(row@ =~= self@[i as int]);
            matrix.push(row);
        }
        proof {
            assert(matrix.deep_view().len() == self@.len());
            assert forall|a: int| 0 <= a < self.size implies matrix.deep_view()[a] == self@[a] by {
                assert(matrix.deep_view()[a] == matrix@[a].deep_view());
                assert(matrix@[a].deep_view() =~= matrix@[a]@);
            }
            assert(matrix.deep_view() =~= self@);
        }
        matrix
    }

    /// Reading `(row, col)` and `(col, row)` gives the same value.
    pub proof fn lemma_cell_symmetric(&self, row: int, col: int)
        ensures
            self.cell(row, col) == self.cell(col, row),
    {
    }
}

/// Packing a symmetric matrix and unpacking it again gives the matrix back.
pub proof fn lemma_symmetric_round_trip(m: Seq<Seq<i32>>)
    requires
        is_symmetric(m),
    ensures
        mirror_lower(m) == m,
{
    let full = mirror_lower(m);
    assert forall|i: int| 0 <= i < m.len() implies full[i] == m[i] by {
        assert(full[i] =~= m[i]);
    }
    assert(full =~= m);
}

} // verus!
