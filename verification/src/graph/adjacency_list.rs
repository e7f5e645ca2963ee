//! Adjacency list: a directed graph over a fixed number of vertices, with a
//! list of `(target, weight)` entries for every vertex, in insertion order.

use super::traversal::{
    lemma_distinct_bounded, lemma_reachable_bounded, next_after, reachable, GraphNeighbor,
};
use vstd::prelude::*;

verus! {

/// The targets of the entries of one list, in list order.
pub open spec fn targets<W>(row: Seq<(usize, W)>) -> Seq<usize> {
    row.map_values(|e: (usize, W)| e.0)
}

/// A directed graph stored as one list of edges per vertex.
#[derive(Debug, Clone)]
pub struct AdjacencyList<T, W> {
    vertices: usize,
    edges: usize,
    vertex_data: Vec<Option<T>>,
    adj: Vec<Vec<(usize, W)>>,
}

impl<T, W> AdjacencyList<T, W> where W: Clone + PartialEq {
    /// The number of vertices.
    pub closed spec fn spec_vertices(&self) -> nat {
        self.vertices as nat
    }

    /// The value of the edge counter.
    pub closed spec fn spec_edges(&self) -> nat {
        self.edges as nat
    }

    /// The payload of vertex `v`.
    pub closed spec fn payload(&self, v: int) -> Option<T> {
        self.vertex_data@[v]
    }

    /// The list of vertex `v`: its edges as `(target, weight)`, oldest first.
    pub closed spec fn entries(&self, v: int) -> Seq<(usize, W)> {
        self.adj@[v]@
    }

    /// The vertices that `vertex` has an edge to, in list order.
    pub open spec fn successors(&self, vertex: int) -> Seq<usize> {
        if 0 <= vertex < self.spec_vertices() {
            targets(self.entries(vertex))
        } else {
            Seq::empty()
        }
    }

    /// The weight of the edge from `from` to `to`; `None` where there is no edge.
    pub open spec fn weight(&self, from: int, to: usize) -> Option<W> {
        let found = self.successors(from);
        if found.contains(to) {
            Some(self.entries(from)[found.index_of(to)].1)
        } else {
            None
        }
    }

    /// The number of entries in the lists of the vertices below `upto`.
    pub open spec fn entries_upto(&self, upto: int) -> nat
        decreases upto,
    {
        if upto <= 0 {
            0
        } else {
            self.entries_upto(upto - 1) + self.entries(upto - 1).len()
        }
    }

    /// There is a list for every vertex, and no list names a vertex twice
    /// or names one that the graph does not have.
    pub closed spec fn lists_ok(&self) -> bool {
        &&& self.vertices * self.vertices <= usize::MAX
        &&& self.vertex_data@.len() == self.vertices
        &&& self.adj@.len() == self.vertices
        &&& forall|v: int|
            0 <= v < self.vertices ==> (#[trigger] self.successors(v)).no_duplicates()
        &&& forall|v: int, k: int|
            0 <= v < self.vertices && 0 <= k < self.entries(v).len() ==> (
            #[trigger] self.entries(v)[k]).0 < self.vertices
    }

    /// The lists are sound and the counter counts their entries.
    pub closed spec fn wf(&self) -> bool {
        &&& self.lists_ok()
        &&& self.edges == self.entries_upto(self.vertices as int)
    }

    /// The lists below `upto` hold at most `upto` times the number of vertices.
    proof fn lemma_entries_bounded(&self, upto: int)
        requires
            self.lists_ok(),
            0 <= upto <= self.vertices,
        ensures
            self.entries_upto(upto) <= upto * self.vertices,
        decreases upto,
    {
        if upto > 0 {
            self.lemma_entries_bounded(upto - 1);
            let row = self.successors(upto - 1);
            assert forall|k: int| 0 <= k < row.len() implies row[k] < self.vertices by {
                assert(row[k] == self.entries(upto - 1)[k].0);
            }
            lemma_distinct_bounded(row, self.vertices as nat);
            assert((upto - 1) * self.vertices + self.vertices == upto * self.vertices)
                by (nonlinear_arith);
        }
    }

    /// When one list grows or shrinks by `delta` entries and the others stay
    /// as they are, so does the number of all entries.
    proof fn lemma_entries_changed(&self, old: &Self, changed: int, delta: int, upto: int)
        requires
            0 <= upto,
            0 <= changed,
            forall|v: int| 0 <= v < upto && v != changed ==> self.entries(v) == old.entries(v),
            self.entries(changed).len() == old.entries(changed).len() + delta,
        ensures
            self.entries_upto(upto) == old.entries_upto(upto) + if changed < upto {
                delta
            } else {
                0
            },
        decreases upto,
    {
        if upto > 0 {
            self.lemma_entries_changed(old, changed, delta, upto - 1);
        }
    }

    /// Sound lists stay sound, and hold as many entries, whatever the counter says.
    proof fn lemma_counter_apart(&self, other: &Self)
        requires
            other.lists_ok(),
            self.vertices == other.vertices,
            self.vertex_data == other.vertex_data,
            self.adj == other.adj,
        ensures
            self.lists_ok(),
            self.entries_upto(self.vertices as int) == other.entries_upto(self.vertices as int),
    {
        assert forall|v: int| 0 <= v < self.vertices implies (#[trigger] self.successors(
            v,
        )).no_duplicates() by {
            assert(self.successors(v) == other.successors(v));
        }
        assert forall|v: int, k: int|
            0 <= v < self.vertices && 0 <= k < self.entries(v).len() implies (#[trigger] self.entries(
            v,
        )[k]).0 < self.vertices by {
            assert(other.entries(v)[k].0 < self.vertices);
        }
        self.lemma_entries_changed(other, 0, 0, self.vertices as int);
    }

    /// The counter equals the number of entries in all lists.
    pub proof fn lemma_edge_count(&self)
        requires
            self.wf(),
        ensures
            self.spec_edges() == self.entries_upto(self.spec_vertices() as int),
            forall|v: int|
                0 <= v < self.spec_vertices() ==> (#[trigger] self.successors(v)).no_duplicates(),
            forall|v: int, k: int|
                0 <= v < self.spec_vertices() && 0 <= k < self.successors(v).len() ==> (
                #[trigger] self.successors(v)[k]) < self.spec_vertices(),
    {
        assert forall|v: int, k: int|
            0 <= v < self.spec_vertices() && 0 <= k < self.successors(v).len() implies (
        #[trigger] self.successors(v)[k]) < self.spec_vertices() by {
            assert(self.successors(v)[k] == self.entries(v)[k].0);
        }
    }

    /// A graph of `vertices` vertices without payloads or edges.
    pub fn new(vertices: usize) -> (g: Self)
        requires
            vertices * vertices <= usize::MAX,
        ensures
            g.wf(),
            g.spec_vertices() == vertices,
            g.spec_edges() == 0,
            forall|v: int| 0 <= v < vertices ==> g.payload(v) is None,
            forall|v: int| 0 <= v < vertices ==> g.entries(v).len() == 0,
    {
        let mut adj: Vec<Vec<(usize, W)>> = Vec::with_capacity(vertices);
        for i in 0..vertices
            invariant
                adj@.len() == i,
                forall|a: int| 0 <= a < i ==> (#[trigger] adj@[a])@.len() == 0,
        {
            adj.push(Vec::new());
        }
        let mut vertex_data: Vec<Option<T>> = Vec::with_capacity(vertices);
        for i in 0..vertices
            invariant
                vertex_data@.len() == i,
                forall|a: int| 0 <= a < i ==> (#[trigger] vertex_data@[a]) is None,
        {
            vertex_data.push(None);
        }
        let g = AdjacencyList { vertices, edges: 0, vertex_data, adj };
        proof {
            g.lemma_entries_empty(vertices as int);
        }
        g
    }

    proof fn lemma_entries_empty(&self, upto: int)
        requires
            forall|v: int| 0 <= v < upto ==> self.entries(v).len() == 0,
        ensures
            self.entries_upto(upto) == 0,
        decreases upto,
    {
        if upto > 0 {
            self.lemma_entries_empty(upto - 1);
        }
    }

    /// The number of vertices.
    pub fn vertices(&self) -> (n: usize)
        ensures
            n == self.spec_vertices(),
    {
        self.vertices
    }

    /// The number of edges.
    pub fn edges(&self) -> (n: usize)
        ensures
            n == self.spec_edges(),
    {
        self.edges
    }

    /// Gives vertex `vertex` the payload `data`.
    pub fn set_vertex_data(&mut self, vertex: usize, data: T)
        requires
            old(self).wf(),
            vertex < old(self).spec_vertices(),
        ensures
            final(self).wf(),
            final(self).spec_vertices() == old(self).spec_vertices(),
            final(self).spec_edges() == old(self).spec_edges(),
            final(self).payload(vertex as int) == Some(data),
            forall|v: int|
                0 <= v < old(self).spec_vertices() && v != vertex ==> final(self).payload(v) == old(
                    self,
                ).payload(v),
            forall|v: int| final(self).entries(v) == old(self).entries(v),
    {
        self.vertex_data[vertex] = Some(data);
        proof {
            assert forall|v: int| 0 <= v < self.vertices implies (#[trigger] self.successors(
                v,
            )).no_duplicates() by {
                assert(self.successors(v) == old(self).successors(v));
            }
            assert forall|v: int, k: int|
                0 <= v < self.vertices && 0 <= k < self.entries(v).len() implies (
            #[trigger] self.entries(v)[k]).0 < self.vertices by {
                assert(old(self).entries(v)[k].0 < self.vertices);
            }
            self.lemma_entries_changed(old(self), 0, 0, self.vertices as int);
        }
    }

    /// The payload of vertex `vertex`, if it has one.
    pub fn get_vertex_data(&self, vertex: usize) -> (data: Option<&T>)
        requires
            self.wf(),
            vertex < self.spec_vertices(),
        ensures
            data is Some <==> self.payload(vertex as int) is Some,
            data matches Some(d) ==> Some(*d) == self.payload(vertex as int),
    {
        self.vertex_data[vertex].as_ref()
    }

    /// Adds an edge from `from` to `to` at the end of the list of `from`, or
    /// replaces the weight of the edge that is there already.
    pub fn add_edge(&mut self, from: usize, to: usize, weight: W)
        requires
            old(self).wf(),
            from < old(self).spec_vertices(),
            to < old(self).spec_vertices(),
        ensures
            final(self).wf(),
            final(self).spec_vertices() == old(self).spec_vertices(),
            forall|v: int| final(self).payload(v) == old(self).payload(v),
            forall|v: int|
                0 <= v < old(self).spec_vertices() && v != from ==> final(self).entries(v) == old(
                    self,
                ).entries(v),
            old(self).successors(from as int).contains(to) ==> final(self).entries(from as int)
                == old(self).entries(from as int).update(
                old(self).successors(from as int).index_of(to),
                (to, weight),
            ) && final(self).spec_edges() == old(self).spec_edges(),
            !old(self).successors(from as int).contains(to) ==> final(self).entries(from as int)
                == old(self).entries(from as int).push((to, weight)) && final(self).spec_edges()
                == old(self).spec_edges() + 1,
            final(self).weight(from as int, to) == Some(weight),
    {
        let len = self.adj[from].len();
        let mut idx: usize = 0;
        let ghost row = self.entries(from as int);
        let ghost found = self.successors(from as int);
        while idx < len
            invariant
                *self == *old(self),
                self.wf(),
                from < self.vertices,
                to < self.vertices,
                len == row.len(),
                row == self.entries(from as int),
                found == targets(row),
                0 <= idx <= len,
                forall|k: int| 0 <= k < idx ==> found[k] != to,
            decreases len - idx,
        {
            if self.adj[from][idx].0 == to {
                self.adj[from][idx].1 = weight;
                proof {
                    let i = idx as int;
                    assert(found[i] == to);
                    assert(found == old(self).successors(from as int));
                    assert(found.no_duplicates());
                    assert(found.index_of(to) == i);
                    assert(self.entries(from as int) =~= row.update(i, (to, weight)));
                    assert(self.successors(from as int) =~= found);
                    assert forall|v: int| 0 <= v < self.vertices implies (
                    #[trigger] self.successors(v)).no_duplicates() by {
                        if v != from {
                            assert(self.successors(v) == old(self).successors(v));
                        }
                    }
                    assert forall|v: int, k: int|
                        0 <= v < self.vertices && 0 <= k < self.entries(v).len() implies (
                    #[trigger] self.entries(v)[k]).0 < self.vertices by {
                        assert(old(self).entries(v)[k].0 < self.vertices);
                    }
                    self.lemma_entries_changed(old(self), from as int, 0, self.vertices as int);
                }
                return ;
            }
            idx += 1;
        }
        self.adj[from].push((to, weight));
        proof {
            assert(found == old(self).successors(from as int));
            assert(found.no_duplicates());
            assert(!found.contains(to));
            assert(self.entries(from as int) =~= row.push((to, weight)));
            let grown = self.successors(from as int);
            assert(grown =~= found.push(to));
            assert(grown.no_duplicates());
            assert(grown[len as int] == to);
            assert(grown.index_of(to) == len);
            assert forall|v: int| 0 <= v < self.vertices implies (#[trigger] self.successors(
                v,
            )).no_duplicates() by {
                if v != from {
                    assert(self.successors(v) == old(self).successors(v));
                }
            }
            assert forall|v: int, k: int|
                0 <= v < self.vertices && 0 <= k < self.entries(v).len() implies (
            #[trigger] self.entries(v)[k]).0 < self.vertices by {
                if v != from || k < len {
                    assert(old(self).entries(v)[k].0 < self.vertices);
                }
            }
            self.lemma_entries_changed(old(self), from as int, 1, self.vertices as int);
            self.lemma_entries_bounded(self.vertices as int);
        }
        let ghost grown = *self;
        self.edges += 1;
        proof {
            self.lemma_counter_apart(&grown);
        }
    }

    /// The weight of the edge from `from` to `to`, if there is one.
    pub fn get_edge(&self, from: usize, to: usize) -> (weight: Option<&W>)
        requires
            self.wf(),
            from < self.spec_vertices(),
            to < self.spec_vertices(),
        ensures
            weight is Some <==> self.weight(from as int, to) is Some,
            weight matches Some(w) ==> Some(*w) == self.weight(from as int, to),
    {
        let len = self.adj[from].len();
        let mut idx: usize = 0;
        let ghost found = self.successors(from as int);
        while idx < len
            invariant
                self.wf(),
                from < self.vertices,
                len == self.entries(from as int).len(),
                found == targets(self.entries(from as int)),
                0 <= idx <= len,
                forall|k: int| 0 <= k < idx ==> found[k] != to,
            decreases len - idx,
        {
            if self.adj[from][idx].0 == to {
                proof {
                    assert(found[idx as int] == to);
                    assert(found.no_duplicates());
                    assert(found.index_of(to) == idx);
                }
                return Some(&self.adj[from][idx].1);
            }
            idx += 1;
        }
        None
    }

    /// Removes the edge from `from` to `to`, if there is one.
    pub fn remove_edge(&mut self, from: usize, to: usize)
        requires
            old(self).wf(),
            from < old(self).spec_vertices(),
            to < old(self).spec_vertices(),
        ensures
            final(self).wf(),
            final(self).spec_vertices() == old(self).spec_vertices(),
            forall|v: int| final(self).payload(v) == old(self).payload(v),
            forall|v: int|
                0 <= v < old(self).spec_vertices() && v != from ==> final(self).entries(v) == old(
                    self,
                ).entries(v),
            old(self).successors(from as int).contains(to) ==> final(self).entries(from as int)
                == old(self).entries(from as int).remove(
                old(self).successors(from as int).index_of(to),
            ) && final(self).spec_edges() == old(self).spec_edges() - 1,
            !old(self).successors(from as int).contains(to) ==> final(self).entries(from as int)
                == old(self).entries(from as int) && final(self).spec_edges() == old(
                self,
            ).spec_edges(),
            final(self).weight(from as int, to) is None,
    {
        let len = self.adj[from].len();
        let mut idx: usize = 0;
        let ghost row = self.entries(from as int);
        let ghost found = self.successors(from as int);
        while idx < len
            invariant
                *self == *old(self),
                self.wf(),
                from < self.vertices,
                to < self.vertices,
                len == row.len(),
                row == self.entries(from as int),
                found == targets(row),
                0 <= idx <= len,
                forall|k: int| 0 <= k < idx ==> found[k] != to,
            decreases len - idx,
        {
            if self.adj[from][idx].0 == to {
                self.adj[from].remove(idx);
                proof {
                    let i = idx as int;
                    assert(found[i] == to);
                    assert(found == old(self).successors(from as int));
                    assert(found.no_duplicates());
                    assert(found.index_of(to) == i);
                    assert(self.entries(from as int) =~= row.remove(i));
                    let fewer = self.successors(from as int);
                    assert(fewer =~= found.remove(i));
                    assert(fewer.no_duplicates() && !fewer.contains(to)) by {
                        assert forall|a: int| 0 <= a < fewer.len() implies fewer[a] == found[if a
                            < i {
                            a
                        } else {
                            a + 1
                        }] by {}
                    }
                    assert forall|v: int| 0 <= v < self.vertices implies (
                    #[trigger] self.successors(v)).no_duplicates() by {
                        if v != from {
                            assert(self.successors(v) == old(self).successors(v));
                        }
                    }
                    assert forall|v: int, k: int|
                        0 <= v < self.vertices && 0 <= k < self.entries(v).len() implies (
                    #[trigger] self.entries(v)[k]).0 < self.vertices by {
                        if v != from || k < i {
                            assert(old(self).entries(v)[k].0 < self.vertices);
                        } else {
                            assert(old(self).entries(v)[k + 1].0 < self.vertices);
                        }
                    }
                    self.lemma_entries_changed(old(self), from as int, -1, self.vertices as int);
                }
                let ghost shrunk = *self;
                self.edges -= 1;
                proof {
                    self.lemma_counter_apart(&shrunk);
                }
                return ;
            }
            idx += 1;
        }
        proof {
            assert(!found.contains(to));
        }
    }
}

impl<T, W> AdjacencyList<T, W> where W: Clone + PartialEq {
    /// Whatever can be reached from a vertex of the graph is a vertex of the
    /// graph: a search from `start` may run with the number of vertices.
    pub proof fn lemma_search_in_range(&self, start: usize)
        requires
            self.wf(),
            start < self.spec_vertices(),
        ensures
            forall|v: usize| reachable(self, start, v) ==> v < self.spec_vertices(),
    {
        assert forall|v: usize, k: int|
            v < self.spec_vertices() && 0 <= k < self.neighbors(v).len() implies (
        #[trigger] self.neighbors(v)[k]) < self.spec_vertices() by {
            self.lemma_edge_count();
            assert(self.successors(v as int)[k] < self.spec_vertices());
        }
        lemma_reachable_bounded(self, start, self.vertices);
    }
}

impl<T, W> GraphNeighbor for AdjacencyList<T, W> where W: Clone + PartialEq {
    open spec fn neighbors_wf(&self) -> bool {
        self.wf()
    }

    open spec fn neighbors(&self, vertex: usize) -> Seq<usize> {
        self.successors(vertex as int)
    }

    proof fn lemma_neighbors_distinct(&self, vertex: usize) {
        if vertex < self.spec_vertices() {
            self.lemma_edge_count();
        }
    }

    /// The target of the first entry in the list of `vertex`.
    fn first_neighbor(&self, vertex: usize) -> (neighbor: Option<usize>) {
        if vertex >= self.vertices {
            return None;
        }
        if self.adj[vertex].len() > 0 {
            Some(self.adj[vertex][0].0)
        } else {
            None
        }
    }

    /// The target of the entry after the one for `current_neighbor` in the
    /// list of `vertex`; `None` if there is no entry for `current_neighbor`.
    fn next_neighbor(&self, vertex: usize, current_neighbor: usize) -> (neighbor: Option<usize>)
        ensures
            neighbor == next_after(self.neighbors(vertex), current_neighbor),
    {
        if vertex >= self.vertices {
            return None;
        }
        let ghost found = self.successors(vertex as int);
        let len = self.adj[vertex].len();
        let mut i: usize = 0;
        while i < len
            invariant
                self.wf(),
                vertex < self.vertices,
                len == self.entries(vertex as int).len(),
                found == targets(self.entries(vertex as int)),
                0 <= i <= len,
                forall|k: int| 0 <= k < i ==> found[k] != current_neighbor,
            decreases len - i,
        {
            if self.adj[vertex][i].0 == current_neighbor {
                proof {
                    assert(found[i as int] == current_neighbor);
                    assert(found.no_duplicates());
                    assert(found.index_of(current_neighbor) == i);
                }
                if i + 1 < len {
                    return Some(self.adj[vertex][i + 1].0);
                }
                return None;
            }
            i += 1;
        }
        None
    }
}

} // verus!
