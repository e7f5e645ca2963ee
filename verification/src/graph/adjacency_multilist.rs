//! Adjacency multilist: storage for an undirected graph in which every edge
//! is one record, linked into the chains of both its endpoints.

use super::chain::{descending, link_int, link_ok, redirect, walk, without};
use super::chain::{
    lemma_walk_frame, lemma_walk_no_duplicates, lemma_walk_shape, lemma_walk_unfold,
    lemma_walk_unlink, lemma_without_absent, lemma_without_contains,
};
use vstd::prelude::*;
use vstd::set_lib::*;

verus! {

/// An edge of an adjacency multilist.
#[derive(Debug, Clone)]
pub struct AMLEdge<W> {
    /// One endpoint of the edge.
    pub ivex: usize,
    /// The other endpoint of the edge.
    pub jvex: usize,
    /// The next edge at `ivex`.
    pub ilink: Option<usize>,
    /// The next edge at `jvex`.
    pub jlink: Option<usize>,
    /// The weight of the edge.
    pub weight: W,
}

/// A vertex of an adjacency multilist.
#[derive(Debug, Clone)]
pub struct AMLVertex<T> {
    /// The payload of the vertex.
    pub data: T,
    /// The first edge at the vertex.
    pub first_edge: Option<usize>,
}

/// An undirected graph stored as an adjacency multilist.
///
/// Edges live in an arena of slots; removing an edge empties its slot.
#[derive(Debug, Clone)]
pub struct AdjacencyMultilist<T, W> {
    /// The vertices, by index.
    pub vertices: Vec<AMLVertex<T>>,
    /// The arena of edges; an emptied slot holds `None`.
    pub edges: Vec<Option<AMLEdge<W>>>,
    /// The number of edges in the graph.
    pub edge_count: usize,
}

/// Slot `i` of the arena holds an edge.
pub open spec fn edge_live<W>(edges: Seq<Option<AMLEdge<W>>>, i: int) -> bool {
    0 <= i < edges.len() && edges[i] is Some
}

/// The slots that hold an edge.
pub open spec fn live_edges<W>(edges: Seq<Option<AMLEdge<W>>>) -> Set<int> {
    Set::new(|i: int| edge_live(edges, i))
}

/// Vertex `v` is an endpoint of `e`.
pub open spec fn touches<W>(e: AMLEdge<W>, v: int) -> bool {
    e.ivex == v || e.jvex == v
}

/// `e` joins the vertices `i` and `j`, in either order.
pub open spec fn joins<W>(e: AMLEdge<W>, i: int, j: int) -> bool {
    (e.ivex == i && e.jvex == j) || (e.ivex == j && e.jvex == i)
}

/// The link of `e` that continues the chain of vertex `v`.
pub open spec fn link_at<W>(e: AMLEdge<W>, v: int) -> Option<usize> {
    if e.ivex == v {
        e.ilink
    } else {
        e.jlink
    }
}

/// `e` with the link that continues the chain of vertex `v` set to `link`.
pub open spec fn with_link_at<W>(e: AMLEdge<W>, v: int, link: Option<usize>) -> AMLEdge<W> {
    if e.ivex == v {
        AMLEdge { ivex: e.ivex, jvex: e.jvex, ilink: link, jlink: e.jlink, weight: e.weight }
    } else {
        AMLEdge { ivex: e.ivex, jvex: e.jvex, ilink: e.ilink, jlink: link, weight: e.weight }
    }
}

/// The successor map of the chain of vertex `v`.
pub open spec fn vertex_links<W>(edges: Seq<Option<AMLEdge<W>>>, v: int) -> Map<int, Option<int>> {
    Map::new(
        |i: int| edge_live(edges, i) && touches(edges[i].unwrap(), v),
        |i: int| link_int(link_at(edges[i].unwrap(), v)),
    )
}

/// The first slot of `chain` whose edge joins `i` and `j`.
pub open spec fn first_joining<W>(
    edges: Seq<Option<AMLEdge<W>>>,
    chain: Seq<int>,
    i: int,
    j: int,
) -> Option<int>
    decreases chain.len(),
{
    if chain.len() == 0 {
        None
    } else if joins(edges[chain[0]].unwrap(), i, j) {
        Some(chain[0])
    } else {
        first_joining(edges, chain.drop_first(), i, j)
    }
}

/// `link`, unless it names slot `t`: then `past`.
pub open spec fn relink_edge(link: Option<usize>, t: int, past: Option<usize>) -> Option<usize> {
    if link_int(link) == Some(t) {
        past
    } else {
        link
    }
}

/// The arena after slot `t` is emptied and every link that named it names
/// the edge that followed it in the same chain.
pub open spec fn unlink_edge<W>(edges: Seq<Option<AMLEdge<W>>>, t: int) -> Seq<Option<AMLEdge<W>>> {
    Seq::new(
        edges.len(),
        |k: int|
            if k == t {
                None
            } else {
                match edges[k] {
                    None => None,
                    Some(e) => Some(
                        AMLEdge {
                            ivex: e.ivex,
                            jvex: e.jvex,
                            ilink: relink_edge(
                                e.ilink,
                                t,
                                link_at(edges[t].unwrap(), e.ivex as int),
                            ),
                            jlink: relink_edge(
                                e.jlink,
                                t,
                                link_at(edges[t].unwrap(), e.jvex as int),
                            ),
                            weight: e.weight,
                        },
                    ),
                }
            },
    )
}

/// The vertices after every chain head that named slot `t` names the edge that followed it.
pub open spec fn unhook_edge<T, W>(
    vertices: Seq<AMLVertex<T>>,
    edges: Seq<Option<AMLEdge<W>>>,
    t: int,
) -> Seq<AMLVertex<T>> {
    Seq::new(
        vertices.len(),
        |v: int|
            AMLVertex {
                data: vertices[v].data,
                first_edge: relink_edge(vertices[v].first_edge, t, link_at(edges[t].unwrap(), v)),
            },
    )
}

/// The arena holds no more edges than it has slots.
pub proof fn lemma_live_edges_bounded<W>(edges: Seq<Option<AMLEdge<W>>>)
    ensures
        live_edges(edges).finite(),
        live_edges(edges).len() <= edges.len(),
{
    let range = set_int_range(0, edges.len() as int);
    lemma_int_range(0, edges.len() as int);
    assert(live_edges(edges).subset_of(range));
    lemma_len_subset(live_edges(edges), range);
}

/// When no slot of `chain` before position `pos` holds an edge that joins `i`
/// and `j` and the one at `pos` does, that slot is the first such.
pub proof fn lemma_first_joining_at<W>(
    edges: Seq<Option<AMLEdge<W>>>,
    chain: Seq<int>,
    i: int,
    j: int,
    pos: int,
)
    requires
        0 <= pos < chain.len(),
        forall|k: int| 0 <= k < pos ==> !joins(edges[#[trigger] chain[k]].unwrap(), i, j),
        joins(edges[chain[pos]].unwrap(), i, j),
    ensures
        first_joining(edges, chain, i, j) == Some(chain[pos]),
    decreases pos,
{
    if pos > 0 {
        let rest = chain.drop_first();
        assert forall|k: int| 0 <= k < pos - 1 implies !joins(
            edges[#[trigger] rest[k]].unwrap(),
            i,
            j,
        ) by {
            assert(rest[k] == chain[k + 1]);
        }
        lemma_first_joining_at(edges, rest, i, j, pos - 1);
    }
}

/// When no slot of `chain` holds an edge that joins `i` and `j`, there is no first such.
pub proof fn lemma_first_joining_none<W>(
    edges: Seq<Option<AMLEdge<W>>>,
    chain: Seq<int>,
    i: int,
    j: int,
)
    requires
        forall|k: int| 0 <= k < chain.len() ==> !joins(edges[#[trigger] chain[k]].unwrap(), i, j),
    ensures
        first_joining(edges, chain, i, j) is None,
    decreases chain.len(),
{
    if chain.len() > 0 {
        let rest = chain.drop_first();
        assert forall|k: int| 0 <= k < rest.len() implies !joins(
            edges[#[trigger] rest[k]].unwrap(),
            i,
            j,
        ) by {
            assert(rest[k] == chain[k + 1]);
        }
        lemma_first_joining_none(edges, rest, i, j);
    }
}

/// The first edge of `chain` that joins `i` and `j`, where there is one, is a
/// member of `chain` that joins them.
pub proof fn lemma_first_joining_member<W>(
    edges: Seq<Option<AMLEdge<W>>>,
    chain: Seq<int>,
    i: int,
    j: int,
)
    ensures
        first_joining(edges, chain, i, j) matches Some(t) ==> chain.contains(t) && joins(
            edges[t].unwrap(),
            i,
            j,
        ),
    decreases chain.len(),
{
    if chain.len() > 0 {
        if joins(edges[chain[0]].unwrap(), i, j) {
            assert(chain.contains(chain[0]));
        } else {
            let rest = chain.drop_first();
            lemma_first_joining_member(edges, rest, i, j);
            if first_joining(edges, rest, i, j) is Some {
                let t = first_joining(edges, rest, i, j).unwrap();
                let k = choose|k: int| 0 <= k < rest.len() && rest[k] == t;
                assert(chain[k + 1] == t);
            }
        }
    }
}

impl<T, W> AdjacencyMultilist<T, W> where W: Clone {
    /// The slots of the edges at vertex `v`, most recently added first.
    pub open spec fn chain(&self, v: int) -> Seq<int> {
        walk(vertex_links(self.edges@, v), link_int(self.vertices@[v].first_edge))
    }

    /// The edge in live slot `i` joins two different vertices of the graph and
    /// is a member of the chains of both.
    pub open spec fn edge_ok(&self, i: int) -> bool {
        let e = self.edges@[i].unwrap();
        &&& e.ivex < self.vertices@.len()
        &&& e.jvex < self.vertices@.len()
        &&& e.ivex != e.jvex
        &&& self.chain(e.ivex as int).contains(i)
        &&& self.chain(e.jvex as int).contains(i)
    }

    /// The chain of vertex `v` starts at a live edge at `v`, and each of its
    /// links leads downwards to another live edge at `v`.
    pub open spec fn vertex_ok(&self, v: int) -> bool {
        &&& descending(vertex_links(self.edges@, v))
        &&& self.vertices@[v].first_edge matches Some(i) ==> edge_live(self.edges@, i as int)
            && touches(self.edges@[i as int].unwrap(), v)
    }

    /// The chains are sound: links lead downwards to live edges, every live
    /// edge is in the chains of its two endpoints, and the counter counts the
    /// live edges.
    pub open spec fn wf(&self) -> bool {
        &&& forall|i: int| edge_live(self.edges@, i) ==> #[trigger] self.edge_ok(i)
        &&& forall|v: int| 0 <= v < self.vertices@.len() ==> #[trigger] self.vertex_ok(v)
        &&& self.edge_count == live_edges(self.edges@).len()
    }

    /// The slot of the edge that `remove_edge` selects for `(i, j)`: the most
    /// recently added edge that joins `i` and `j`.
    pub open spec fn find_edge(&self, i: int, j: int) -> Option<int> {
        if 0 <= i < self.vertices@.len() && 0 <= j < self.vertices@.len() {
            first_joining(self.edges@, self.chain(i), i, j)
        } else {
            None
        }
    }

    /// A graph without vertices or edges.
    pub fn new() -> (g: Self)
        ensures
            g.wf(),
            g.vertices@.len() == 0,
            g.edges@.len() == 0,
            g.edge_count == 0,
    {
        let g = AdjacencyMultilist { vertices: Vec::new(), edges: Vec::new(), edge_count: 0 };
        proof {
            assert(live_edges(g.edges@) =~= Set::empty());
        }
        g
    }

    /// Appends a vertex without edges and returns its index.
    pub fn add_vertex(&mut self, data: T) -> (index: usize)
        requires
            old(self).wf(),
        ensures
            final(self).wf(),
            index == old(self).vertices@.len(),
            final(self).vertices@ == old(self).vertices@.push(AMLVertex { data, first_edge: None }),
            final(self).edges@ == old(self).edges@,
            final(self).edge_count == old(self).edge_count,
    {
        let index = self.vertices.len();
        self.vertices.push(AMLVertex { data, first_edge: None });
        proof {
            assert forall|i: int| edge_live(self.edges@, i) implies #[trigger] self.edge_ok(i) by {
                assert(old(self).edge_ok(i));
                let e = self.edges@[i].unwrap();
                assert(self.vertices@[e.ivex as int] == old(self).vertices@[e.ivex as int]);
                assert(self.vertices@[e.jvex as int] == old(self).vertices@[e.jvex as int]);
            }
            assert forall|v: int| 0 <= v < self.vertices@.len() implies #[trigger] self.vertex_ok(
                v,
            ) by {
                if v < index {
                    assert(old(self).vertex_ok(v));
                } else {
                    let links = vertex_links(self.edges@, v);
                    assert forall|k: int| links.dom().contains(k) implies #[trigger] link_ok(
                        links,
                        k,
                    ) by {
                        assert(old(self).edge_ok(k));
                    }
                }
            }
        }
        index
    }

    /// The payload of vertex `index`, if there is such a vertex.
    pub fn get_vertex_data(&self, index: usize) -> (data: Option<&T>)
        ensures
            index < self.vertices@.len() ==> data == Some(&self.vertices@[index as int].data),
            index >= self.vertices@.len() ==> data is None,
    {
        if index < self.vertices.len() {
            Some(&self.vertices[index].data)
        } else {
            None
        }
    }

    /// Adds an edge between the different vertices `i` and `j`, in front of
    /// the chains of both.
    pub fn add_edge(&mut self, i: usize, j: usize, weight: W)
        requires
            old(self).wf(),
            i < old(self).vertices@.len(),
            j < old(self).vertices@.len(),
            i != j,
        ensures
            final(self).wf(),
            final(self).edges@ == old(self).edges@.push(
                Some(
                    AMLEdge {
                        ivex: i,
                        jvex: j,
                        ilink: old(self).vertices@[i as int].first_edge,
                        jlink: old(self).vertices@[j as int].first_edge,
                        weight,
                    },
                ),
            ),
            final(self).vertices@.len() == old(self).vertices@.len(),
            forall|v: int|
                0 <= v < old(self).vertices@.len() ==> {
                    let before = old(self).vertices@[v];
                    let after = #[trigger] final(self).vertices@[v];
                    &&& after.data == before.data
                    &&& after.first_edge == if v == i || v == j {
                        Some(old(self).edges@.len() as usize)
                    } else {
                        before.first_edge
                    }
                },
            final(self).edge_count == old(self).edge_count + 1,
            forall|v: int|
                0 <= v < old(self).vertices@.len() ==> #[trigger] final(self).chain(v) == if v == i
                    || v == j {
                    seq![old(self).edges@.len() as int] + old(self).chain(v)
                } else {
                    old(self).chain(v)
                },
            final(self).find_edge(i as int, j as int) == Some(old(self).edges@.len() as int),
            final(self).find_edge(j as int, i as int) == Some(old(self).edges@.len() as int),
    {
        let ilink = self.vertices[i].first_edge;
        let jlink = self.vertices[j].first_edge;
        let edge = AMLEdge { ivex: i, jvex: j, ilink, jlink, weight };
        self.edges.push(Some(edge));
        let edge_idx = self.edges.len() - 1;
        self.vertices[i].first_edge = Some(edge_idx);
        self.vertices[j].first_edge = Some(edge_idx);
        proof {
            lemma_live_edges_bounded(old(self).edges@);
        }
        self.edge_count += 1;
        proof {
            assert(self.edges@.drop_last() =~= old(self).edges@);
            old(self).lemma_edge_added(*self, i as int, j as int);
        }
    }

    /// Adding an edge in front of the chains of its endpoints keeps the chains sound.
    pub proof fn lemma_edge_added(self, after: Self, i: int, j: int)
        requires
            self.wf(),
            0 <= i < self.vertices@.len(),
            0 <= j < self.vertices@.len(),
            i != j,
            after.edges@.len() == self.edges@.len() + 1,
            after.edges@.drop_last() == self.edges@,
            after.edges@.last() matches Some(e) && e.ivex == i && e.jvex == j && e.ilink
                == self.vertices@[i].first_edge && e.jlink == self.vertices@[j].first_edge,
            after.vertices@.len() == self.vertices@.len(),
            forall|v: int|
                0 <= v < self.vertices@.len() ==> link_int(
                    (#[trigger] after.vertices@[v]).first_edge,
                ) == if v == i || v == j {
                    Some(self.edges@.len() as int)
                } else {
                    link_int(self.vertices@[v].first_edge)
                },
            after.edge_count == self.edge_count + 1,
        ensures
            after.wf(),
            forall|v: int|
                0 <= v < self.vertices@.len() ==> #[trigger] after.chain(v) == if v == i || v == j {
                    seq![self.edges@.len() as int] + self.chain(v)
                } else {
                    self.chain(v)
                },
            after.find_edge(i, j) == Some(self.edges@.len() as int),
            after.find_edge(j, i) == Some(self.edges@.len() as int),
    {
        let n = self.edges@.len() as int;
        assert forall|k: int| 0 <= k < n implies after.edges@[k] == self.edges@[k] by {
            assert(after.edges@.drop_last()[k] == after.edges@[k]);
        }
        assert forall|v: int| 0 <= v < self.vertices@.len() implies #[trigger] after.vertex_ok(v)
            && after.chain(v) == if v == i || v == j {
            seq![n] + self.chain(v)
        } else {
            self.chain(v)
        } by {
            let s1 = vertex_links(self.edges@, v);
            let s2 = vertex_links(after.edges@, v);
            let start = link_int(self.vertices@[v].first_edge);
            assert(self.vertex_ok(v));
            assert forall|k: int| s2.dom().contains(k) implies #[trigger] link_ok(s2, k) by {
                if k < n {
                    assert(link_ok(s1, k));
                }
            }
            lemma_walk_shape(s1, start);
            lemma_walk_frame(s1, s2, start);
            assert(link_int(after.vertices@[v].first_edge) == if v == i || v == j {
                Some(n)
            } else {
                start
            });
            if v == i || v == j {
                lemma_walk_unfold(s2, n);
                assert(s2[n] == start);
            }
        }
        assert forall|k: int| edge_live(after.edges@, k) implies #[trigger] after.edge_ok(k) by {
            let e = after.edges@[k].unwrap();
            if k < n {
                assert(self.edge_ok(k));
                let a = e.ivex as int;
                let b = e.jvex as int;
                assert(after.vertex_ok(a) && after.vertex_ok(b));
                let ja = choose|x: int| 0 <= x < self.chain(a).len() && self.chain(a)[x] == k;
                assert((seq![n] + self.chain(a))[ja + 1] == k);
                assert(self.chain(a)[ja] == k);
                assert(after.chain(a).contains(k));
                let jb = choose|x: int| 0 <= x < self.chain(b).len() && self.chain(b)[x] == k;
                assert((seq![n] + self.chain(b))[jb + 1] == k);
                assert(self.chain(b)[jb] == k);
                assert(after.chain(b).contains(k));
            } else {
                assert(after.vertex_ok(i) && after.vertex_ok(j));
                assert(after.chain(i)[0] == n);
                assert(after.chain(j)[0] == n);
                assert(after.chain(i).contains(n));
                assert(after.chain(j).contains(n));
            }
        }
        lemma_live_edges_bounded(self.edges@);
        assert(live_edges(after.edges@) =~= live_edges(self.edges@).insert(n));
        assert forall|v: int| 0 <= v < self.vertices@.len() implies #[trigger] after.chain(v)
            == if v == i || v == j {
            seq![n] + self.chain(v)
        } else {
            self.chain(v)
        } by {
            assert(after.vertex_ok(v));
        }
        assert(after.vertex_ok(i) && after.vertex_ok(j));
        assert(after.chain(i).len() > 0 && after.chain(i)[0] == n);
        assert(after.chain(j).len() > 0 && after.chain(j)[0] == n);
    }

    /// Removes the most recently added edge that joins `i` and `j`, if there
    /// is one: the edge leaves the chains of both endpoints and its slot is
    /// emptied.
    #[verifier::rlimit(40)]
    pub fn remove_edge(&mut self, i: usize, j: usize)
        requires
            old(self).wf(),
        ensures
            final(self).wf(),
            old(self).find_edge(i as int, j as int) is None ==> *final(self) == *old(self),
            old(self).find_edge(i as int, j as int) matches Some(t) ==> {
                &&& final(self).edges@ == unlink_edge(old(self).edges@, t)
                &&& final(self).vertices@ == unhook_edge(old(self).vertices@, old(self).edges@, t)
                &&& final(self).edge_count == old(self).edge_count - 1
                &&& !edge_live(final(self).edges@, t)
                &&& forall|v: int|
                    0 <= v < old(self).vertices@.len() ==> #[trigger] final(self).chain(v)
                        == without(old(self).chain(v), t)
                &&& !final(self).chain(i as int).contains(t)
                &&& !final(self).chain(j as int).contains(t)
            },
    {
        if i >= self.vertices.len() || j >= self.vertices.len() {
            return ;
        }
        let ghost links = vertex_links(self.edges@, i as int);
        let ghost chain = self.chain(i as int);
        let ghost mut pos: int = 0;
        let mut edge_idx_opt: Option<usize> = None;
        let mut curr = self.vertices[i].first_edge;
        proof {
            assert(self.vertex_ok(i as int));
            lemma_walk_shape(links, link_int(curr));
        }
        while curr.is_some() && edge_idx_opt.is_none()
            invariant
                *self == *old(self),
                self.wf(),
                i < self.vertices@.len(),
                j < self.vertices@.len(),
                links == vertex_links(self.edges@, i as int),
                descending(links),
                chain == walk(links, link_int(self.vertices@[i as int].first_edge)),
                0 <= pos <= chain.len(),
                link_int(curr) == if pos < chain.len() {
                    Some(chain[pos])
                } else {
                    None
                },
                forall|k: int|
                    0 <= k < pos ==> !joins(
                        self.edges@[#[trigger] chain[k]].unwrap(),
                        i as int,
                        j as int,
                    ),
                edge_idx_opt matches Some(t) ==> pos < chain.len() && t == chain[pos] && joins(
                    self.edges@[t as int].unwrap(),
                    i as int,
                    j as int,
                ),
            decreases chain.len() - pos + if edge_idx_opt is None { 1int } else { 0int },
        {
            let idx = curr.unwrap();
            proof {
                lemma_walk_shape(links, link_int(self.vertices@[i as int].first_edge));
                assert(links.dom().contains(chain[pos]));
            }
            match &self.edges[idx] {
                Some(edge) => {
                    if (edge.ivex == i && edge.jvex == j) || (edge.ivex == j && edge.jvex == i) {
                        edge_idx_opt = Some(idx);
                    } else {
                        proof {
                            if pos < chain.len() - 1 {
                                assert(links[chain[pos]] == Some(chain[pos + 1]));
                            } else {
                                assert(chain[pos] == chain.last());
                            }
                            pos = pos + 1;
                        }
                        if edge.ivex == i {
                            curr = edge.ilink;
                        } else {
                            curr = edge.jlink;
                        }
                    }
                },
                None => {
                    return ;
                },
            }
        }

        if let Some(target_idx) = edge_idx_opt {
            let ghost t = target_idx as int;
            proof {
                lemma_first_joining_at(self.edges@, chain, i as int, j as int, pos);
                lemma_walk_shape(links, link_int(self.vertices@[i as int].first_edge));
                assert(links.dom().contains(chain[pos]));
                assert(self.edge_ok(t));
                assert(self.vertex_ok(j as int));
                assert(chain.contains(t));
                lemma_live_edges_bounded(self.edges@);
                assert(live_edges(self.edges@).contains(t));
            }
            let Ghost(pos_i) = self.remove_edge_from_vertex(i, target_idx);
            let ghost mid = *self;
            proof {
                old(self).lemma_other_chain_kept(mid, i as int, j as int, t, pos_i);
            }
            let Ghost(pos_j) = self.remove_edge_from_vertex(j, target_idx);
            let ghost last = *self;
            proof {
                old(self).lemma_chain_members(j as int);
            }
            self.edges[target_idx] = None;
            self.edge_count -= 1;
            proof {
                old(self).lemma_spliced_twice(mid, last, *self, i as int, j as int, t, pos_i, pos_j);
                old(self).lemma_edge_unlinked(*self, t);
                lemma_without_contains(old(self).chain(i as int), t, t);
                lemma_without_contains(old(self).chain(j as int), t, t);
            }
        } else {
            proof {
                lemma_first_joining_none(self.edges@, chain, i as int, j as int);
            }
        }
    }

    /// `after` is `self` with the edge `t`, found at position `pos` of the
    /// chain of `v`, bypassed in that chain: the member before it, or the
    /// chain head, names the member after it. Nothing else differs.
    spec fn spliced_at(self, after: Self, v: int, t: int, pos: int) -> bool {
        let c = self.chain(v);
        let past = link_at(self.edges@[t].unwrap(), v);
        &&& after.edge_count == self.edge_count
        &&& 0 <= pos < c.len()
        &&& c[pos] == t
        &&& pos == 0 ==> after.edges@ == self.edges@ && after.vertices@ == self.vertices@.update(
            v,
            AMLVertex { data: self.vertices@[v].data, first_edge: past },
        )
        &&& pos > 0 ==> after.vertices@ == self.vertices@ && after.edges@ == self.edges@.update(
            c[pos - 1],
            Some(with_link_at(self.edges@[c[pos - 1]].unwrap(), v, past)),
        )
    }

    /// Bypassing an edge in the chain of one endpoint leaves the chain of the
    /// other endpoint as it was.
    proof fn lemma_other_chain_kept(self, mid: Self, i: int, j: int, t: int, pos: int)
        requires
            self.wf(),
            0 <= i < self.vertices@.len(),
            0 <= j < self.vertices@.len(),
            i != j,
            self.spliced_at(mid, i, t, pos),
        ensures
            vertex_links(mid.edges@, j) == vertex_links(self.edges@, j),
            mid.vertices@[j].first_edge == self.vertices@[j].first_edge,
            mid.chain(j) == self.chain(j),
            mid.edges@.len() == self.edges@.len(),
            mid.vertices@.len() == self.vertices@.len(),
            mid.edges@[t] == self.edges@[t],
    {
        self.lemma_chain_members(i);
        self.lemma_sole_predecessor(i, t, pos);
        let c = self.chain(i);
        if pos > 0 {
            let p = c[pos - 1];
            assert(edge_live(self.edges@, p));
            assert(self.edge_ok(p));
            assert(p != t) by {
                assert(self.vertex_ok(i));
                lemma_walk_no_duplicates(
                    vertex_links(self.edges@, i),
                    link_int(self.vertices@[i].first_edge),
                );
            }
        }
        assert(vertex_links(mid.edges@, j) =~= vertex_links(self.edges@, j));
    }

    /// Bypassing a live edge in the chains of both its endpoints, one after
    /// the other, and emptying its slot unlinks the edge.
    proof fn lemma_spliced_twice(
        self,
        mid: Self,
        last: Self,
        after: Self,
        i: int,
        j: int,
        t: int,
        pos_i: int,
        pos_j: int,
    )
        requires
            self.wf(),
            0 <= i < self.vertices@.len(),
            0 <= j < self.vertices@.len(),
            edge_live(self.edges@, t),
            joins(self.edges@[t].unwrap(), i, j),
            self.spliced_at(mid, i, t, pos_i),
            mid.spliced_at(last, j, t, pos_j),
            after.edges@ == last.edges@.update(t, None),
            after.vertices@ == last.vertices@,
        ensures
            after.edges@ == unlink_edge(self.edges@, t),
            after.vertices@ == unhook_edge(self.vertices@, self.edges@, t),
    {
        assert(self.edge_ok(t));
        self.lemma_other_chain_kept(mid, i, j, t, pos_i);
        self.lemma_sole_predecessor(i, t, pos_i);
        self.lemma_sole_predecessor(j, t, pos_j);
        self.lemma_links_touch(t);
        let ci = self.chain(i);
        let cj = self.chain(j);
        let gone = self.edges@[t].unwrap();
        let target = unlink_edge(self.edges@, t);
        assert(after.edges@.len() == target.len());
        assert forall|k: int| 0 <= k < self.edges@.len() implies after.edges@[k] == target[k] by {
            if k != t && self.edges@[k] is Some {
                let e = self.edges@[k].unwrap();
                assert(edge_live(self.edges@, k));
                assert(self.edge_ok(k));
                let is_pi = pos_i > 0 && k == ci[pos_i - 1];
                let is_pj = pos_j > 0 && k == cj[pos_j - 1];
                let m = mid.edges@[k].unwrap();
                let l = last.edges@[k].unwrap();
                assert(m == if is_pi {
                    with_link_at(e, i, link_at(gone, i))
                } else {
                    e
                });
                assert(l == if is_pj {
                    with_link_at(m, j, link_at(gone, j))
                } else {
                    m
                });
                assert(after.edges@[k] == Some(l));
                if link_int(e.ilink) == Some(t) {
                    assert(touches(gone, e.ivex as int));
                    assert(e.ivex == i || e.ivex == j);
                }
                if link_int(e.jlink) == Some(t) {
                    assert(touches(gone, e.jvex as int));
                    assert(e.jvex == i || e.jvex == j);
                }
            }
        }
        assert(after.edges@ =~= target);
        let hooked = unhook_edge(self.vertices@, self.edges@, t);
        assert forall|v: int| 0 <= v < self.vertices@.len() implies after.vertices@[v]
            == hooked[v] by {
            if link_int(self.vertices@[v].first_edge) == Some(t) {
                assert(touches(gone, v));
            }
        }
        assert(after.vertices@ =~= hooked);
    }

    /// Takes edge `target_edge_idx` out of the chain of `vertex`: the member
    /// before it, or the chain head, is made to name the member after it.
    /// Returns the position the edge had in the chain.
    fn remove_edge_from_vertex(&mut self, vertex: usize, target_edge_idx: usize) -> (pos: Ghost<
        int,
    >)
        requires
            vertex < old(self).vertices@.len(),
            descending(vertex_links(old(self).edges@, vertex as int)),
            old(self).vertices@[vertex as int].first_edge matches Some(h) ==> vertex_links(
                old(self).edges@,
                vertex as int,
            ).dom().contains(h as int),
            old(self).chain(vertex as int).contains(target_edge_idx as int),
        ensures
            old(self).spliced_at(*final(self), vertex as int, target_edge_idx as int, pos@),
    {
        let ghost links = vertex_links(self.edges@, vertex as int);
        let ghost chain = self.chain(vertex as int);
        let ghost t = target_edge_idx as int;
        let ghost mut pos: int = 0;
        let mut prev: Option<usize> = None;
        let mut curr = self.vertices[vertex].first_edge;
        let mut next_link: Option<usize> = None;
        let mut found = false;
        proof {
            lemma_walk_shape(links, link_int(curr));
        }
        while curr.is_some() && !found
            invariant
                *self == *old(self),
                vertex < self.vertices@.len(),
                links == vertex_links(self.edges@, vertex as int),
                descending(links),
                chain == walk(links, link_int(self.vertices@[vertex as int].first_edge)),
                chain.contains(t),
                t == target_edge_idx,
                0 <= pos <= chain.len(),
                link_int(curr) == if pos < chain.len() {
                    Some(chain[pos])
                } else {
                    None
                },
                link_int(prev) == if pos > 0 {
                    Some(chain[pos - 1])
                } else {
                    None
                },
                forall|k: int| 0 <= k < pos ==> #[trigger] chain[k] != t,
                found ==> pos < chain.len() && chain[pos] == t && next_link == link_at(
                    self.edges@[t].unwrap(),
                    vertex as int,
                ),
            decreases chain.len() - pos + if found { 0int } else { 1int },
        {
            let idx = curr.unwrap();
            proof {
                lemma_walk_shape(links, link_int(self.vertices@[vertex as int].first_edge));
                assert(links.dom().contains(chain[pos]));
            }
            let (is_target, i_link, j_link, ivex) = match &self.edges[idx] {
                Some(edge) => (idx == target_edge_idx, edge.ilink, edge.jlink, edge.ivex),
                None => (false, None, None, 0),
            };
            let link = if ivex == vertex {
                i_link
            } else {
                j_link
            };
            if is_target {
                next_link = link;
                found = true;
            } else {
                proof {
                    if pos < chain.len() - 1 {
                        assert(links[chain[pos]] == Some(chain[pos + 1]));
                    } else {
                        assert(chain[pos] == chain.last());
                    }
                    pos = pos + 1;
                }
                prev = Some(idx);
                curr = link;
            }
        }
        proof {
            if !found {
                let k = choose|k: int| 0 <= k < chain.len() && chain[k] == t;
                assert(chain[k] != t);
            }
            lemma_walk_shape(links, link_int(self.vertices@[vertex as int].first_edge));
            if pos > 0 {
                assert(links.dom().contains(chain[pos - 1]));
            }
        }

        if found {
            if let Some(p) = prev {
                match &mut self.edges[p] {
                    Some(prev_edge) => {
                        if prev_edge.ivex == vertex {
                            prev_edge.ilink = next_link;
                        } else {
                            prev_edge.jlink = next_link;
                        }
                    },
                    None => {},
                }
                proof {
                    assert(self.edges@ =~= old(self).edges@.update(
                        chain[pos - 1],
                        Some(
                            with_link_at(
                                old(self).edges@[chain[pos - 1]].unwrap(),
                                vertex as int,
                                next_link,
                            ),
                        ),
                    ));
                }
            } else {
                self.vertices[vertex].first_edge = next_link;
                proof {
                    assert(self.vertices@ =~= old(self).vertices@.update(
                        vertex as int,
                        AMLVertex {
                            data: old(self).vertices@[vertex as int].data,
                            first_edge: next_link,
                        },
                    ));
                }
            }
        }
        Ghost(pos)
    }

    /// Every member of the chain of vertex `v` is a live edge at `v`, and no
    /// edge occurs twice in the chain.
    pub proof fn lemma_chain_members(self, v: int)
        requires
            self.wf(),
            0 <= v < self.vertices@.len(),
        ensures
            self.chain(v).no_duplicates(),
            forall|k: int|
                0 <= k < self.chain(v).len() ==> edge_live(self.edges@, #[trigger] self.chain(v)[k])
                    && touches(self.edges@[self.chain(v)[k]].unwrap(), v),
    {
        assert(self.vertex_ok(v));
        lemma_walk_shape(vertex_links(self.edges@, v), link_int(self.vertices@[v].first_edge));
        lemma_walk_no_duplicates(
            vertex_links(self.edges@, v),
            link_int(self.vertices@[v].first_edge),
        );
    }

    /// Each link of a live edge leads to a live edge at the same vertex.
    proof fn lemma_links_touch(self, t: int)
        requires
            self.wf(),
        ensures
            forall|k: int|
                edge_live(self.edges@, k) && link_int((#[trigger] self.edges@[k]).unwrap().ilink)
                    == Some(t) ==> edge_live(self.edges@, t) && touches(
                    self.edges@[t].unwrap(),
                    self.edges@[k].unwrap().ivex as int,
                ),
            forall|k: int|
                edge_live(self.edges@, k) && link_int((#[trigger] self.edges@[k]).unwrap().jlink)
                    == Some(t) ==> edge_live(self.edges@, t) && touches(
                    self.edges@[t].unwrap(),
                    self.edges@[k].unwrap().jvex as int,
                ),
            forall|v: int|
                0 <= v < self.vertices@.len() && link_int(
                    (#[trigger] self.vertices@[v]).first_edge,
                ) == Some(t) ==> edge_live(self.edges@, t) && touches(self.edges@[t].unwrap(), v),
    {
        assert forall|k: int|
            edge_live(self.edges@, k) && link_int((#[trigger] self.edges@[k]).unwrap().ilink)
                == Some(t) implies edge_live(self.edges@, t) && touches(
            self.edges@[t].unwrap(),
            self.edges@[k].unwrap().ivex as int,
        ) by {
            assert(self.edge_ok(k));
            let v = self.edges@[k].unwrap().ivex as int;
            assert(self.vertex_ok(v));
            assert(link_ok(vertex_links(self.edges@, v), k));
        }
        assert forall|k: int|
            edge_live(self.edges@, k) && link_int((#[trigger] self.edges@[k]).unwrap().jlink)
                == Some(t) implies edge_live(self.edges@, t) && touches(
            self.edges@[t].unwrap(),
            self.edges@[k].unwrap().jvex as int,
        ) by {
            assert(self.edge_ok(k));
            let v = self.edges@[k].unwrap().jvex as int;
            assert(self.vertex_ok(v));
            assert(link_ok(vertex_links(self.edges@, v), k));
        }
        assert forall|v: int|
            0 <= v < self.vertices@.len() && link_int((#[trigger] self.vertices@[v]).first_edge)
                == Some(t) implies edge_live(self.edges@, t) && touches(
            self.edges@[t].unwrap(),
            v,
        ) by {
            assert(self.vertex_ok(v));
        }
    }

    /// In a sound list only the member just before edge `t` in the chain of
    /// `v`, or the head of that chain, names `t` on behalf of `v`.
    proof fn lemma_sole_predecessor(self, v: int, t: int, pos: int)
        requires
            self.wf(),
            0 <= v < self.vertices@.len(),
            0 <= pos < self.chain(v).len(),
            self.chain(v)[pos] == t,
        ensures
            edge_live(self.edges@, t),
            touches(self.edges@[t].unwrap(), v),
            forall|k: int|
                edge_live(self.edges@, k) && touches((#[trigger] self.edges@[k]).unwrap(), v)
                    && link_int(link_at(self.edges@[k].unwrap(), v)) == Some(t) ==> pos > 0 && k
                    == self.chain(v)[pos - 1],
            pos > 0 ==> edge_live(self.edges@, self.chain(v)[pos - 1]) && touches(
                self.edges@[self.chain(v)[pos - 1]].unwrap(),
                v,
            ) && link_int(link_at(self.edges@[self.chain(v)[pos - 1]].unwrap(), v)) == Some(t),
            link_int(self.vertices@[v].first_edge) == Some(t) <==> pos == 0,
    {
        let links = vertex_links(self.edges@, v);
        let c = self.chain(v);
        let start = link_int(self.vertices@[v].first_edge);
        assert(self.vertex_ok(v));
        lemma_walk_shape(links, start);
        lemma_walk_no_duplicates(links, start);
        assert(links.dom().contains(c[pos]));
        assert forall|k: int|
            edge_live(self.edges@, k) && touches((#[trigger] self.edges@[k]).unwrap(), v)
                && link_int(link_at(self.edges@[k].unwrap(), v)) == Some(t) implies pos > 0 && k
            == c[pos - 1] by {
            assert(self.edge_ok(k));
            let x = choose|x: int| 0 <= x < c.len() && c[x] == k;
            assert(links[c[x]] == Some(t));
            if x == c.len() - 1 {
                assert(c[x] == c.last());
            } else {
                assert(links[c[x]] == Some(c[x + 1]));
            }
        }
        if pos > 0 {
            assert(links.dom().contains(c[pos - 1]));
            assert(links[c[pos - 1]] == Some(c[pos]));
        }
        assert(c[0] == start.unwrap());
    }

    /// Unlinking a live edge keeps the chains sound, and takes the edge out of
    /// every chain without moving any other member.
    pub proof fn lemma_edge_unlinked(self, after: Self, t: int)
        requires
            self.wf(),
            edge_live(self.edges@, t),
            after.edges@ == unlink_edge(self.edges@, t),
            after.vertices@ == unhook_edge(self.vertices@, self.edges@, t),
            after.edge_count == self.edge_count - 1,
        ensures
            after.wf(),
            forall|v: int|
                0 <= v < self.vertices@.len() ==> #[trigger] after.chain(v) == without(
                    self.chain(v),
                    t,
                ),
    {
        let gone = self.edges@[t].unwrap();
        assert(self.edge_ok(t));
        self.lemma_links_touch(t);
        assert forall|v: int| 0 <= v < self.vertices@.len() implies #[trigger] after.vertex_ok(v)
            && after.chain(v) == without(self.chain(v), t) by {
            let s1 = vertex_links(self.edges@, v);
            let s2 = vertex_links(after.edges@, v);
            let start = link_int(self.vertices@[v].first_edge);
            assert(self.vertex_ok(v));
            lemma_walk_shape(s1, start);
            assert forall|k: int| s2.dom().contains(k) implies s1.dom().contains(k) && k != t
                && s2[k] == (if touches(gone, v) {
                redirect(s1[k], t, s1[t])
            } else {
                s1[k]
            }) by {
                assert(link_ok(s1, k));
            }
            assert forall|k: int| s1.dom().contains(k) && k != t implies s2.dom().contains(k) by {}
            assert forall|k: int| s2.dom().contains(k) implies #[trigger] link_ok(s2, k) by {
                assert(link_ok(s1, k));
                if touches(gone, v) {
                    assert(link_ok(s1, t));
                }
            }
            if touches(gone, v) {
                assert(link_ok(s1, t));
                lemma_walk_unlink(s1, s2, start, t);
                assert(link_int(after.vertices@[v].first_edge) == redirect(start, t, s1[t]));
            } else {
                lemma_walk_frame(s1, s2, start);
                assert(!self.chain(v).contains(t));
                lemma_without_absent(self.chain(v), t);
                assert(link_int(after.vertices@[v].first_edge) == start);
            }
        }
        assert forall|k: int| edge_live(after.edges@, k) implies #[trigger] after.edge_ok(k) by {
            assert(self.edge_ok(k));
            let e = self.edges@[k].unwrap();
            assert(after.vertex_ok(e.ivex as int));
            assert(after.vertex_ok(e.jvex as int));
            lemma_without_contains(self.chain(e.ivex as int), t, k);
            lemma_without_contains(self.chain(e.jvex as int), t, k);
        }
        lemma_live_edges_bounded(self.edges@);
        assert(live_edges(after.edges@) =~= live_edges(self.edges@).remove(t));
        assert forall|v: int| 0 <= v < self.vertices@.len() implies #[trigger] after.chain(v)
            == without(self.chain(v), t) by {
            assert(after.vertex_ok(v));
        }
    }

    /// The slots met when the chains of all vertices are walked.
    pub open spec fn reachable_edges(&self) -> Set<int> {
        Set::new(
            |i: int|
                exists|v: int| 0 <= v < self.vertices@.len() && #[trigger] self.chain(v).contains(i),
        )
    }

    /// The counter equals the number of distinct edges met by walking every
    /// chain, and the walks meet exactly the live edges.
    pub proof fn lemma_edge_count_matches_chains(self)
        requires
            self.wf(),
        ensures
            self.reachable_edges() == live_edges(self.edges@),
            self.edge_count == self.reachable_edges().len(),
    {
        assert forall|i: int| self.reachable_edges().contains(i) implies live_edges(
            self.edges@,
        ).contains(i) by {
            let v = choose|v: int|
                0 <= v < self.vertices@.len() && #[trigger] self.chain(v).contains(i);
            self.lemma_chain_members(v);
            let k = choose|k: int| 0 <= k < self.chain(v).len() && self.chain(v)[k] == i;
            assert(edge_live(self.edges@, self.chain(v)[k]));
        }
        assert forall|i: int| live_edges(self.edges@).contains(i) implies self.reachable_edges().contains(
            i,
        ) by {
            assert(self.edge_ok(i));
            let v = self.edges@[i].unwrap().ivex as int;
            assert(self.chain(v).contains(i));
        }
        assert(self.reachable_edges() =~= live_edges(self.edges@));
    }

    /// Once the only edge that joins `i` and `j` is removed, no edge that
    /// joins them is found any more, from either side.
    pub proof fn lemma_removed_edge_absent(self, after: Self, i: int, j: int)
        requires
            self.wf(),
            self.find_edge(i, j) is Some,
            after.edges@ == unlink_edge(self.edges@, self.find_edge(i, j).unwrap()),
            after.vertices@ == unhook_edge(
                self.vertices@,
                self.edges@,
                self.find_edge(i, j).unwrap(),
            ),
            after.edge_count == self.edge_count - 1,
            forall|k: int|
                edge_live(self.edges@, k) && k != self.find_edge(i, j).unwrap() ==> !joins(
                    (#[trigger] self.edges@[k]).unwrap(),
                    i,
                    j,
                ),
        ensures
            after.find_edge(i, j) is None,
            after.find_edge(j, i) is None,
    {
        let t = self.find_edge(i, j).unwrap();
        lemma_first_joining_member(self.edges@, self.chain(i), i, j);
        self.lemma_chain_members(i);
        let kt = choose|k: int| 0 <= k < self.chain(i).len() && self.chain(i)[k] == t;
        assert(edge_live(self.edges@, self.chain(i)[kt]));
        self.lemma_edge_unlinked(after, t);
        self.lemma_no_edge_left(after, t, i, j, i);
        self.lemma_no_edge_left(after, t, i, j, j);
        assert forall|k: int| 0 <= k < after.chain(j).len() implies !joins(
            after.edges@[#[trigger] after.chain(j)[k]].unwrap(),
            j,
            i,
        ) by {
            assert(!joins(after.edges@[after.chain(j)[k]].unwrap(), i, j));
        }
        lemma_first_joining_none(after.edges@, after.chain(i), i, j);
        lemma_first_joining_none(after.edges@, after.chain(j), j, i);
    }

    proof fn lemma_no_edge_left(self, after: Self, t: int, i: int, j: int, v: int)
        requires
            self.wf(),
            after.wf(),
            0 <= v < self.vertices@.len(),
            edge_live(self.edges@, t),
            after.edges@ == unlink_edge(self.edges@, t),
            after.vertices@.len() == self.vertices@.len(),
            forall|k: int|
                edge_live(self.edges@, k) && k != t ==> !joins(
                    (#[trigger] self.edges@[k]).unwrap(),
                    i,
                    j,
                ),
        ensures
            forall|k: int|
                0 <= k < after.chain(v).len() ==> !joins(
                    after.edges@[#[trigger] after.chain(v)[k]].unwrap(),
                    i,
                    j,
                ),
    {
        after.lemma_chain_members(v);
        assert forall|k: int| 0 <= k < after.chain(v).len() implies !joins(
            after.edges@[#[trigger] after.chain(v)[k]].unwrap(),
            i,
            j,
        ) by {
            let slot = after.chain(v)[k];
            assert(edge_live(after.edges@, slot));
            assert(edge_live(self.edges@, slot) && slot != t);
            assert(!joins(self.edges@[slot].unwrap(), i, j));
        }
    }
}

} // verus!
