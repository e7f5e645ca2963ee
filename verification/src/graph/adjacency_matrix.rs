//! Adjacency matrix: a directed graph over a fixed number of vertices, with
//! one optional weight for every ordered pair of them.

use super::traversal::{first_of, lemma_reachable_bounded, next_after, reachable, GraphNeighbor};
use vstd::prelude::*;
use vstd::set_lib::*;

verus! {

/// The numbers below `upto` for which `present` holds, in increasing order.
pub open spec fn columns_upto(present: spec_fn(int) -> bool, upto: int) -> Seq<usize>
    decreases upto,
{
    if upto <= 0 {
        Seq::empty()
    } else {
        let before = columns_upto(present, upto - 1);
        if present(upto - 1) {
            before.push((upto - 1) as usize)
        } else {
            before
        }
    }
}

/// The members of `columns_upto` are the numbers below `upto` for which
/// `present` holds, and they stand in strictly increasing order.
pub proof fn lemma_columns_members(present: spec_fn(int) -> bool, upto: int)
    requires
        upto <= usize::MAX + 1,
    ensures
        forall|k: int|
            0 <= k < columns_upto(present, upto).len() ==> 0 <= (#[trigger] columns_upto(
                present,
                upto,
            )[k]) < upto && present(columns_upto(present, upto)[k] as int),
        forall|x: int|
            0 <= x < upto && #[trigger] present(x) ==> columns_upto(present, upto).contains(x as usize),
        forall|a: int, b: int|
            0 <= a < b < columns_upto(present, upto).len() ==> columns_upto(present, upto)[a]
                < columns_upto(present, upto)[b],
        columns_upto(present, upto).no_duplicates(),
        columns_upto(present, upto).len() <= if upto < 0 { 0 } else { upto },
    decreases upto,
{
    if upto > 0 {
        let before = columns_upto(present, upto - 1);
        let all = columns_upto(present, upto);
        lemma_columns_members(present, upto - 1);
        assert forall|x: int| 0 <= x < upto && #[trigger] present(x) implies all.contains(
            x as usize,
        ) by {
            if x < upto - 1 {
                let k = choose|k: int| 0 <= k < before.len() && before[k] == x as usize;
                assert(all[k] == x as usize);
            } else {
                assert(all[all.len() - 1] == x as usize);
            }
        }
    }
}

/// A shorter scan gives the beginning of a longer one.
pub proof fn lemma_columns_prefix(present: spec_fn(int) -> bool, shorter: int, upto: int)
    requires
        shorter <= upto,
    ensures
        columns_upto(present, shorter).len() <= columns_upto(present, upto).len(),
        columns_upto(present, upto).subrange(0, columns_upto(present, shorter).len() as int)
            == columns_upto(present, shorter),
    decreases upto - shorter,
{
    let s = columns_upto(present, shorter);
    if shorter < upto {
        lemma_columns_prefix(present, shorter, upto - 1);
        let before = columns_upto(present, upto - 1);
        if upto > 0 {
            assert(columns_upto(present, upto).subrange(0, s.len() as int) =~= before.subrange(
                0,
                s.len() as int,
            ));
        } else {
            assert(before =~= columns_upto(present, upto));
        }
    } else {
        assert(s.subrange(0, s.len() as int) =~= s);
    }
}

/// A scan over a stretch without present numbers finds nothing new.
pub proof fn lemma_columns_gap(present: spec_fn(int) -> bool, from: int, upto: int)
    requires
        from <= upto,
        forall|x: int| from <= x < upto ==> !#[trigger] present(x),
    ensures
        columns_upto(present, upto) == columns_upto(present, from),
    decreases upto - from,
{
    if from < upto {
        lemma_columns_gap(present, from, upto - 1);
        if upto <= 0 {
            assert(columns_upto(present, upto) =~= columns_upto(present, from));
        }
    }
}

/// The first member of the scan is the least present number.
pub proof fn lemma_columns_first(present: spec_fn(int) -> bool, upto: int, least: int)
    requires
        0 <= least < upto <= usize::MAX + 1,
        present(least),
        forall|x: int| 0 <= x < least ==> !#[trigger] present(x),
    ensures
        first_of(columns_upto(present, upto)) == Some(least as usize),
{
    lemma_columns_gap(present, 0, least);
    lemma_columns_prefix(present, least + 1, upto);
    let found = columns_upto(present, least + 1);
    assert(columns_upto(present, 0) =~= Seq::empty());
    assert(found =~= seq![least as usize]);
    assert(columns_upto(present, upto).subrange(0, 1)[0] == least as usize);
}

/// The member that follows `current` in the scan is the least present number above it.
pub proof fn lemma_columns_next(
    present: spec_fn(int) -> bool,
    upto: int,
    current: int,
    following: int,
)
    requires
        0 <= current < following < upto <= usize::MAX + 1,
        present(current),
        present(following),
        forall|x: int| current < x < following ==> !#[trigger] present(x),
    ensures
        next_after(columns_upto(present, upto), current as usize) == Some(following as usize),
{
    let all = columns_upto(present, upto);
    let rank = columns_upto(present, current).len() as int;
    lemma_columns_members(present, upto);
    lemma_columns_gap(present, current + 1, following);
    lemma_columns_prefix(present, following + 1, upto);
    let part = columns_upto(present, following + 1);
    assert(part == columns_upto(present, current).push(current as usize).push(
        following as usize,
    ));
    assert(all.subrange(0, part.len() as int)[rank] == current as usize);
    assert(all.subrange(0, part.len() as int)[rank + 1] == following as usize);
    assert(all[rank] == current as usize);
    assert(all[rank + 1] == following as usize);
    assert(all.contains(current as usize));
    assert(all.index_of(current as usize) == rank);
}

/// When no present number lies above `current`, it is the last member of the scan.
pub proof fn lemma_columns_last(present: spec_fn(int) -> bool, upto: int, current: int)
    requires
        0 <= current < upto <= usize::MAX + 1,
        present(current),
        forall|x: int| current < x < upto ==> !#[trigger] present(x),
    ensures
        next_after(columns_upto(present, upto), current as usize) is None,
{
    let all = columns_upto(present, upto);
    let rank = columns_upto(present, current).len() as int;
    lemma_columns_members(present, upto);
    lemma_columns_gap(present, current + 1, upto);
    assert(all == columns_upto(present, current).push(current as usize));
    assert(all[rank] == current as usize);
    if all.contains(current as usize) {
        assert(all.index_of(current as usize) == rank);
    }
}

/// A finite set of cells of an `n`-by-`n` matrix has at most `n * n` members.
pub proof fn lemma_cells_bounded(cells: Set<(int, int)>, n: int)
    requires
        cells.finite(),
        forall|e: (int, int)| cells.contains(e) ==> 0 <= e.0 < n && 0 <= e.1 < n,
    ensures
        cells.len() <= n * n,
{
    let code = |e: (int, int)| e.0 * n + e.1;
    let codes = cells.map(code);
    assert(vstd::relations::injective_on(code, cells)) by {
        assert forall|a: (int, int), b: (int, int)|
            cells.contains(a) && cells.contains(b) && #[trigger] code(a) == #[trigger] code(
                b,
            ) implies a == b by {
            assert(a.0 == b.0 && a.1 == b.1) by (nonlinear_arith)
                requires
                    0 <= a.0 < n,
                    0 <= a.1 < n,
                    0 <= b.0 < n,
                    0 <= b.1 < n,
                    a.0 * n + a.1 == b.0 * n + b.1,
            ;
        }
    }
    lemma_map_size(cells, codes, code);
    assert(n * n >= 0) by (nonlinear_arith);
    if n > 0 {
        lemma_int_range(0, n * n);
        assert(codes.subset_of(set_int_range(0, n * n))) by {
            assert forall|c: int| codes.contains(c) implies set_int_range(0, n * n).contains(c) by {
                let e = choose|e: (int, int)| cells.contains(e) && code(e) == c;
                assert(0 <= e.0 * n + e.1 < n * n) by (nonlinear_arith)
                    requires
                        0 <= e.0 < n,
                        0 <= e.1 < n,
                ;
            }
        }
        lemma_len_subset(codes, set_int_range(0, n * n));
    } else {
        assert(cells =~= Set::empty());
    }
}

/// A directed graph stored as a matrix of optional weights.
#[derive(Debug, Clone)]
pub struct AdjacencyMatrix<T, W> {
    vertices: usize,
    edges: usize,
    vertex_data: Vec<Option<T>>,
    matrix: Vec<Vec<Option<W>>>,
}

impl<T, W> AdjacencyMatrix<T, W> where W: Clone {
    /// The number of vertices.
    pub closed spec fn spec_vertices(&self) -> nat {
        self.vertices as nat
    }

    /// The value of the edge counter.
    pub closed spec fn spec_edges(&self) -> nat {
        self.edges as nat
    }

    /// The payload of vertex `v`.
    pub closed spec fn payload(&self, v: int) -> Option<T> {
        self.vertex_data@[v]
    }

    /// The weight of the edge from `from` to `to`; `None` where there is no edge.
    pub closed spec fn weight(&self, from: int, to: int) -> Option<W> {
        self.matrix@[from]@[to]
    }

    /// The edges of the graph, as pairs of a start and an end vertex.
    pub open spec fn edge_set(&self) -> Set<(int, int)> {
        Set::new(
            |e: (int, int)|
                0 <= e.0 < self.spec_vertices() && 0 <= e.1 < self.spec_vertices() && self.weight(
                    e.0,
                    e.1,
                ) is Some,
        )
    }

    /// The matrix is square over the vertices, and the counter counts the edges.
    pub closed spec fn wf(&self) -> bool {
        &&& self.vertices * self.vertices <= usize::MAX
        &&& self.vertex_data@.len() == self.vertices
        &&& self.matrix@.len() == self.vertices
        &&& forall|i: int| 0 <= i < self.vertices ==> (#[trigger] self.matrix@[i])@.len() == self.vertices
        &&& self.edge_set().finite()
        &&& self.edges == self.edge_set().len()
    }

    /// The counter equals the number of cells that hold a weight.
    pub proof fn lemma_edge_count(&self)
        requires
            self.wf(),
        ensures
            self.edge_set().finite(),
            self.spec_edges() == self.edge_set().len(),
            self.spec_edges() <= self.spec_vertices() * self.spec_vertices(),
    {
        lemma_cells_bounded(self.edge_set(), self.vertices as int);
    }

    /// A graph of `vertices` vertices without payloads or edges.
    pub fn new(vertices: usize) -> (g: Self)
        requires
            vertices * vertices <= usize::MAX,
        ensures
            g.wf(),
            g.spec_vertices() == vertices,
            g.spec_edges() == 0,
            forall|v: int| 0 <= v < vertices ==> g.payload(v) is None,
            forall|from: int, to: int|
                0 <= from < vertices && 0 <= to < vertices ==> g.weight(from, to) is None,
    {
        let mut matrix: Vec<Vec<Option<W>>> = Vec::with_capacity(vertices);
        for i in 0..vertices
            invariant
                matrix@.len() == i,
                forall|a: int| 0 <= a < i ==> (#[trigger] matrix@[a])@.len() == vertices,
                forall|a: int, b: int|
                    0 <= a < i && 0 <= b < vertices ==> (#[trigger] matrix@[a]@[b]) is None,
        {
            let mut row: Vec<Option<W>> = Vec::with_capacity(vertices);
            for j in 0..vertices
                invariant
                    row@.len() == j,
                    forall|b: int| 0 <= b < j ==> (#[trigger] row@[b]) is None,
            {
                row.push(None);
            }
            matrix.push(row);
        }
        let mut vertex_data: Vec<Option<T>> = Vec::with_capacity(vertices);
        for i in 0..vertices
            invariant
                vertex_data@.len() == i,
                forall|a: int| 0 <= a < i ==> (#[trigger] vertex_data@[a]) is None,
        {
            vertex_data.push(None);
        }
        let g = AdjacencyMatrix { vertices, edges: 0, vertex_data, matrix };
        proof {
            assert(g.edge_set() =~= Set::empty());
        }
        g
    }

    /// The number of vertices.
    pub fn vertices(&self) -> (n: usize)
        ensures
            n == self.spec_vertices(),
    {
        self.vertices
    }

    /// The number of edges.
    pub fn edges(&self) -> (n: usize)
        ensures
            n == self.spec_edges(),
    {
        self.edges
    }

    /// Gives vertex `vertex` the payload `data`.
    pub fn set_vertex_data(&mut self, vertex: usize, data: T)
        requires
            old(self).wf(),
            vertex < old(self).spec_vertices(),
        ensures
            final(self).wf(),
            final(self).spec_vertices() == old(self).spec_vertices(),
            final(self).spec_edges() == old(self).spec_edges(),
            final(self).payload(vertex as int) == Some(data),
            forall|v: int|
                0 <= v < old(self).spec_vertices() && v != vertex ==> final(self).payload(v) == old(
                    self,
                ).payload(v),
            forall|from: int, to: int| final(self).weight(from, to) == old(self).weight(from, to),
    {
        self.vertex_data[vertex] = Some(data);
        proof {
            assert(self.edge_set() =~= old(self).edge_set());
        }
    }

    /// The payload of vertex `vertex`, if it has one.
    pub fn get_vertex_data(&self, vertex: usize) -> (data: Option<&T>)
        requires
            self.wf(),
            vertex < self.spec_vertices(),
        ensures
            data is Some <==> self.payload(vertex as int) is Some,
            data matches Some(d) ==> Some(*d) == self.payload(vertex as int),
    {
        self.vertex_data[vertex].as_ref()
    }

    /// Sets the cell `(from, to)` to `weight`: a weight adds the edge or
    /// replaces its weight, and `None` removes the edge.
    pub fn add_edge(&mut self, from: usize, to: usize, weight: Option<W>)
        requires
            old(self).wf(),
            from < old(self).spec_vertices(),
            to < old(self).spec_vertices(),
        ensures
            final(self).wf(),
            final(self).spec_vertices() == old(self).spec_vertices(),
            final(self).weight(from as int, to as int) == weight,
            forall|a: int, b: int|
                0 <= a < old(self).spec_vertices() && 0 <= b < old(self).spec_vertices() && (a
                    != from || b != to) ==> final(self).weight(a, b) == old(self).weight(a, b),
            forall|v: int| final(self).payload(v) == old(self).payload(v),
            final(self).spec_edges() == old(self).spec_edges() + if old(self).weight(
                from as int,
                to as int,
            ) is None && weight is Some {
                1int
            } else if old(self).weight(from as int, to as int) is Some && weight is None {
                -1int
            } else {
                0int
            },
    {
        proof {
            self.lemma_edge_count();
        }
        if self.matrix[from][to].is_none() && weight.is_some() {
            proof {
                let cell = (from as int, to as int);
                assert(!self.edge_set().contains(cell));
                lemma_cells_bounded(self.edge_set().insert(cell), self.vertices as int);
            }
            self.edges += 1;
        } else if self.matrix[from][to].is_some() && weight.is_none() {
            proof {
                assert(self.edge_set().contains((from as int, to as int)));
            }
            self.edges -= 1;
        }
        self.matrix[from][to] = weight;
        proof {
            let cell = (from as int, to as int);
            if weight is Some {
                assert(self.edge_set() =~= old(self).edge_set().insert(cell));
            } else {
                assert(self.edge_set() =~= old(self).edge_set().remove(cell));
            }
        }
    }

    /// The weight of the edge from `from` to `to`, if there is one.
    pub fn get_edge(&self, from: usize, to: usize) -> (weight: Option<&W>)
        requires
            self.wf(),
            from < self.spec_vertices(),
            to < self.spec_vertices(),
        ensures
            weight is Some <==> self.weight(from as int, to as int) is Some,
            weight matches Some(w) ==> Some(*w) == self.weight(from as int, to as int),
    {
        self.matrix[from][to].as_ref()
    }

    /// Removes the edge from `from` to `to`, if there is one.
    pub fn remove_edge(&mut self, from: usize, to: usize)
        requires
            old(self).wf(),
            from < old(self).spec_vertices(),
            to < old(self).spec_vertices(),
        ensures
            final(self).wf(),
            final(self).spec_vertices() == old(self).spec_vertices(),
            final(self).weight(from as int, to as int) is None,
            forall|a: int, b: int|
                0 <= a < old(self).spec_vertices() && 0 <= b < old(self).spec_vertices() && (a
                    != from || b != to) ==> final(self).weight(a, b) == old(self).weight(a, b),
            forall|v: int| final(self).payload(v) == old(self).payload(v),
            final(self).spec_edges() == old(self).spec_edges() - if old(self).weight(
                from as int,
                to as int,
            ) is Some {
                1int
            } else {
                0int
            },
    {
        proof {
            self.lemma_edge_count();
        }
        if self.matrix[from][to].is_some() {
            proof {
                assert(self.edge_set().contains((from as int, to as int)));
            }
            self.edges -= 1;
        }
        self.matrix[from][to] = None;
        proof {
            assert(self.edge_set() =~= old(self).edge_set().remove((from as int, to as int)));
        }
    }

    /// The vertices that `vertex` has an edge to, in increasing order.
    pub open spec fn successors(&self, vertex: int) -> Seq<usize> {
        if 0 <= vertex < self.spec_vertices() {
            columns_upto(|to: int| self.weight(vertex, to) is Some, self.spec_vertices() as int)
        } else {
            Seq::empty()
        }
    }
}

impl<T, W> AdjacencyMatrix<T, W> where W: Clone {
    /// Whatever can be reached from a vertex of the graph is a vertex of the
    /// graph: a search from `start` may run with the number of vertices.
    pub proof fn lemma_search_in_range(&self, start: usize)
        requires
            self.wf(),
            start < self.spec_vertices(),
        ensures
            forall|v: usize| reachable(self, start, v) ==> v < self.spec_vertices(),
    {
        assert forall|v: usize, k: int|
            v < self.spec_vertices() && 0 <= k < self.neighbors(v).len() implies (
        #[trigger] self.neighbors(v)[k]) < self.spec_vertices() by {
            lemma_columns_members(
                |to: int| self.weight(v as int, to) is Some,
                self.spec_vertices() as int,
            );
        }
        lemma_reachable_bounded(self, start, self.vertices);
    }
}

impl<T, W> GraphNeighbor for AdjacencyMatrix<T, W> where W: Clone {
    open spec fn neighbors_wf(&self) -> bool {
        self.wf()
    }

    open spec fn neighbors(&self, vertex: usize) -> Seq<usize> {
        self.successors(vertex as int)
    }

    proof fn lemma_neighbors_distinct(&self, vertex: usize) {
        if vertex < self.spec_vertices() {
            lemma_columns_members(
                |to: int| self.weight(vertex as int, to) is Some,
                self.spec_vertices() as int,
            );
        }
    }

    /// The least vertex that `vertex` has an edge to.
    fn first_neighbor(&self, vertex: usize) -> (neighbor: Option<usize>)
        ensures
            neighbor matches Some(i) ==> vertex < self.spec_vertices() && i < self.spec_vertices()
                && self.weight(vertex as int, i as int) is Some,
    {
        if vertex >= self.vertices {
            return None;
        }
        let ghost present = |to: int| self.weight(vertex as int, to) is Some;
        for i in 0..self.vertices
            invariant
                self.wf(),
                vertex < self.vertices,
                present == |to: int| self.weight(vertex as int, to) is Some,
                forall|x: int| 0 <= x < i ==> !#[trigger] present(x),
        {
            if self.matrix[vertex][i].is_some() {
                proof {
                    assert(present(i as int));
                    lemma_columns_first(present, self.vertices as int, i as int);
                }
                return Some(i);
            }
        }
        proof {
            lemma_columns_gap(present, 0, self.vertices as int);
            assert(columns_upto(present, 0) =~= Seq::empty());
        }
        None
    }

    /// The least vertex above `current_neighbor` that `vertex` has an edge
    /// to, whether or not it has one to `current_neighbor` itself.
    fn next_neighbor(&self, vertex: usize, current_neighbor: usize) -> (neighbor: Option<usize>)
        ensures
            neighbor matches Some(i) ==> {
                &&& vertex < self.spec_vertices()
                &&& current_neighbor < i < self.spec_vertices()
                &&& self.weight(vertex as int, i as int) is Some
                &&& forall|x: int|
                    current_neighbor < x < i ==> self.weight(vertex as int, x) is None
            },
            neighbor is None && vertex < self.spec_vertices() && current_neighbor
                < self.spec_vertices() ==> forall|x: int|
                current_neighbor < x < self.spec_vertices() ==> self.weight(vertex as int, x) is None,
    {
        if vertex >= self.vertices || current_neighbor >= self.vertices {
            proof {
                if vertex < self.vertices {
                    lemma_columns_members(
                        |to: int| self.weight(vertex as int, to) is Some,
                        self.vertices as int,
                    );
                }
            }
            return None;
        }
        let ghost present = |to: int| self.weight(vertex as int, to) is Some;
        for i in (current_neighbor + 1)..self.vertices
            invariant
                self.wf(),
                vertex < self.vertices,
                current_neighbor < self.vertices,
                present == |to: int| self.weight(vertex as int, to) is Some,
                forall|x: int| current_neighbor < x < i ==> !#[trigger] present(x),
        {
            if self.matrix[vertex][i].is_some() {
                proof {
                    assert(present(i as int));
                    if present(current_neighbor as int) {
                        lemma_columns_next(
                            present,
                            self.vertices as int,
                            current_neighbor as int,
                            i as int,
                        );
                    } else {
                        lemma_columns_members(present, self.vertices as int);
                    }
                    assert forall|x: int| current_neighbor < x < i implies self.weight(
                        vertex as int,
                        x,
                    ) is None by {
                        assert(!present(x));
                    }
                }
                return Some(i);
            }
        }
        proof {
            if present(current_neighbor as int) {
                lemma_columns_last(present, self.vertices as int, current_neighbor as int);
            } else {
                lemma_columns_members(present, self.vertices as int);
            }
            assert forall|x: int| current_neighbor < x < self.spec_vertices() implies self.weight(
                vertex as int,
                x,
            ) is None by {
                assert(!present(x));
            }
        }
        None
    }
}

} // verus!
