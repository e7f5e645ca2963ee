//! Orthogonal list: storage for a directed graph in which every arc is linked
//! into two chains, one through the arcs that leave its tail vertex and one
//! through the arcs that enter its head vertex.

use super::chain::{descending, link_int, link_ok, redirect, walk, without};
use super::chain::{
    lemma_walk_frame, lemma_walk_no_duplicates, lemma_walk_shape, lemma_walk_unfold,
    lemma_walk_unlink, lemma_without_contains,
};
use vstd::prelude::*;
use vstd::set_lib::*;

verus! {

/// An arc (directed edge) of an orthogonal list.
#[derive(Debug, Clone)]
pub struct OLArc<W> {
    /// The vertex the arc leaves.
    pub tail_vex: usize,
    /// The vertex the arc enters.
    pub head_vex: usize,
    /// The next arc with the same head vertex.
    pub head_link: Option<usize>,
    /// The next arc with the same tail vertex.
    pub tail_link: Option<usize>,
    /// The weight of the arc.
    pub weight: W,
}

/// A vertex of an orthogonal list.
#[derive(Debug, Clone)]
pub struct OLVertex<T> {
    /// The payload of the vertex.
    pub data: T,
    /// The first arc that enters the vertex.
    pub first_in: Option<usize>,
    /// The first arc that leaves the vertex.
    pub first_out: Option<usize>,
}

/// A directed graph stored as an orthogonal list.
///
/// Arcs live in an arena of slots; removing an arc empties its slot.
#[derive(Debug, Clone)]
pub struct OrthogonalList<T, W> {
    /// The vertices, by index.
    pub vertices: Vec<OLVertex<T>>,
    /// The arena of arcs; an emptied slot holds `None`.
    pub arcs: Vec<Option<OLArc<W>>>,
    /// Head of the list of emptied slots, kept for handing them out again.
    /// Nothing is put on that list so far: a new arc always gets a fresh slot.
    pub free_arc_head: Option<usize>,
    /// The number of arcs in the graph.
    pub edge_count: usize,
}

/// Slot `i` of the arena holds an arc.
pub open spec fn arc_live<W>(arcs: Seq<Option<OLArc<W>>>, i: int) -> bool {
    0 <= i < arcs.len() && arcs[i] is Some
}

/// The slots that hold an arc.
pub open spec fn live_arcs<W>(arcs: Seq<Option<OLArc<W>>>) -> Set<int> {
    Set::new(|i: int| arc_live(arcs, i))
}

/// The successor map of the chains of leaving arcs.
pub open spec fn out_links<W>(arcs: Seq<Option<OLArc<W>>>) -> Map<int, Option<int>> {
    Map::new(|i: int| arc_live(arcs, i), |i: int| link_int(arcs[i].unwrap().tail_link))
}

/// The successor map of the chains of entering arcs.
pub open spec fn in_links<W>(arcs: Seq<Option<OLArc<W>>>) -> Map<int, Option<int>> {
    Map::new(|i: int| arc_live(arcs, i), |i: int| link_int(arcs[i].unwrap().head_link))
}

/// The first slot of `chain` whose arc enters `to`.
pub open spec fn first_entering<W>(arcs: Seq<Option<OLArc<W>>>, chain: Seq<int>, to: int) -> Option<
    int,
>
    decreases chain.len(),
{
    if chain.len() == 0 {
        None
    } else if arcs[chain[0]].unwrap().head_vex == to {
        Some(chain[0])
    } else {
        first_entering(arcs, chain.drop_first(), to)
    }
}

/// `link`, unless it names slot `t`: then `past`.
pub open spec fn relink(link: Option<usize>, t: int, past: Option<usize>) -> Option<usize> {
    if link_int(link) == Some(t) {
        past
    } else {
        link
    }
}

/// The arena after slot `t` is emptied and every link that named it names
/// the arc that followed it in the same chain.
pub open spec fn unlink_arc<W>(arcs: Seq<Option<OLArc<W>>>, t: int) -> Seq<Option<OLArc<W>>> {
    Seq::new(
        arcs.len(),
        |k: int|
            if k == t {
                None
            } else {
                match arcs[k] {
                    None => None,
                    Some(a) => Some(
                        OLArc {
                            tail_vex: a.tail_vex,
                            head_vex: a.head_vex,
                            head_link: relink(a.head_link, t, arcs[t].unwrap().head_link),
                            tail_link: relink(a.tail_link, t, arcs[t].unwrap().tail_link),
                            weight: a.weight,
                        },
                    ),
                }
            },
    )
}

/// The vertices after every chain head that named slot `t` names the arc that followed it.
pub open spec fn unhook_arc<T, W>(
    vertices: Seq<OLVertex<T>>,
    arcs: Seq<Option<OLArc<W>>>,
    t: int,
) -> Seq<OLVertex<T>> {
    Seq::new(
        vertices.len(),
        |v: int|
            OLVertex {
                data: vertices[v].data,
                first_in: relink(vertices[v].first_in, t, arcs[t].unwrap().head_link),
                first_out: relink(vertices[v].first_out, t, arcs[t].unwrap().tail_link),
            },
    )
}

/// The arena holds no more arcs than it has slots.
pub proof fn lemma_live_arcs_bounded<W>(arcs: Seq<Option<OLArc<W>>>)
    ensures
        live_arcs(arcs).finite(),
        live_arcs(arcs).len() <= arcs.len(),
{
    let range = set_int_range(0, arcs.len() as int);
    lemma_int_range(0, arcs.len() as int);
    assert(live_arcs(arcs).subset_of(range));
    lemma_len_subset(live_arcs(arcs), range);
}

/// When no slot of `chain` before position `pos` holds an arc that enters `to`
/// and the one at `pos` does, that slot is the first such.
pub proof fn lemma_first_entering_at<W>(
    arcs: Seq<Option<OLArc<W>>>,
    chain: Seq<int>,
    to: int,
    pos: int,
)
    requires
        0 <= pos < chain.len(),
        forall|j: int| 0 <= j < pos ==> arcs[#[trigger] chain[j]].unwrap().head_vex != to,
        arcs[chain[pos]].unwrap().head_vex == to,
    ensures
        first_entering(arcs, chain, to) == Some(chain[pos]),
    decreases pos,
{
    if pos > 0 {
        let rest = chain.drop_first();
        assert forall|j: int| 0 <= j < pos - 1 implies arcs[#[trigger] rest[j]].unwrap().head_vex
            != to by {
            assert(rest[j] == chain[j + 1]);
        }
        lemma_first_entering_at(arcs, rest, to, pos - 1);
    }
}

/// When no slot of `chain` holds an arc that enters `to`, there is no first such.
pub proof fn lemma_first_entering_none<W>(arcs: Seq<Option<OLArc<W>>>, chain: Seq<int>, to: int)
    requires
        forall|j: int| 0 <= j < chain.len() ==> arcs[#[trigger] chain[j]].unwrap().head_vex != to,
    ensures
        first_entering(arcs, chain, to) is None,
    decreases chain.len(),
{
    if chain.len() > 0 {
        let rest = chain.drop_first();
        assert forall|j: int| 0 <= j < rest.len() implies arcs[#[trigger] rest[j]].unwrap().head_vex
            != to by {
            assert(rest[j] == chain[j + 1]);
        }
        lemma_first_entering_none(arcs, rest, to);
    }
}

/// The first arc of `chain` that enters `to`, where there is one, is a member
/// of `chain` that enters `to`.
pub proof fn lemma_first_entering_member<W>(
    arcs: Seq<Option<OLArc<W>>>,
    chain: Seq<int>,
    to: int,
)
    ensures
        first_entering(arcs, chain, to) matches Some(t) ==> chain.contains(t)
            && arcs[t].unwrap().head_vex == to,
    decreases chain.len(),
{
    if chain.len() > 0 {
        if arcs[chain[0]].unwrap().head_vex == to {
        } else {
            let rest = chain.drop_first();
            lemma_first_entering_member(arcs, rest, to);
            if first_entering(arcs, rest, to) is Some {
                let t = first_entering(arcs, rest, to).unwrap();
                let j = choose|j: int| 0 <= j < rest.len() && rest[j] == t;
                assert(chain[j + 1] == t);
            }
        }
    }
}

impl<T, W> OrthogonalList<T, W> where W: Clone {
    /// The slots of the arcs that leave vertex `v`, most recently added first.
    pub open spec fn out_chain(&self, v: int) -> Seq<int> {
        walk(out_links(self.arcs@), link_int(self.vertices@[v].first_out))
    }

    /// The slots of the arcs that enter vertex `v`, most recently added first.
    pub open spec fn in_chain(&self, v: int) -> Seq<int> {
        walk(in_links(self.arcs@), link_int(self.vertices@[v].first_in))
    }

    /// The arc in live slot `i` joins two vertices of the graph, each of its
    /// links leads to an arc with the same endpoint, and it is a member of the
    /// chains of both its endpoints.
    pub open spec fn arc_ok(&self, i: int) -> bool {
        let a = self.arcs@[i].unwrap();
        &&& a.tail_vex < self.vertices@.len()
        &&& a.head_vex < self.vertices@.len()
        &&& a.tail_link matches Some(k) ==> self.arcs@[k as int].unwrap().tail_vex == a.tail_vex
        &&& a.head_link matches Some(k) ==> self.arcs@[k as int].unwrap().head_vex == a.head_vex
        &&& self.out_chain(a.tail_vex as int).contains(i)
        &&& self.in_chain(a.head_vex as int).contains(i)
    }

    /// The chains of vertex `v` start at live arcs that leave, respectively enter, `v`.
    pub open spec fn vertex_ok(&self, v: int) -> bool {
        &&& self.vertices@[v].first_out matches Some(i) ==> arc_live(self.arcs@, i as int)
            && self.arcs@[i as int].unwrap().tail_vex == v
        &&& self.vertices@[v].first_in matches Some(i) ==> arc_live(self.arcs@, i as int)
            && self.arcs@[i as int].unwrap().head_vex == v
    }

    /// The chains are sound: links lead downwards to live arcs, every live arc
    /// is in the chains of its two endpoints, and the counter counts the live arcs.
    pub open spec fn wf(&self) -> bool {
        &&& descending(out_links(self.arcs@))
        &&& descending(in_links(self.arcs@))
        &&& forall|i: int| arc_live(self.arcs@, i) ==> #[trigger] self.arc_ok(i)
        &&& forall|v: int| 0 <= v < self.vertices@.len() ==> #[trigger] self.vertex_ok(v)
        &&& self.edge_count == live_arcs(self.arcs@).len()
    }

    /// The slot of the arc that `get_edge` and `remove_edge` select for
    /// `(from, to)`: the most recently added arc from `from` to `to`.
    pub open spec fn find_arc(&self, from: int, to: int) -> Option<int> {
        if 0 <= from < self.vertices@.len() && 0 <= to < self.vertices@.len() {
            first_entering(self.arcs@, self.out_chain(from), to)
        } else {
            None
        }
    }

    /// The weight that `get_edge` reports for `(from, to)`.
    pub open spec fn edge_weight(&self, from: int, to: int) -> Option<W> {
        match self.find_arc(from, to) {
            Some(i) => Some(self.arcs@[i].unwrap().weight),
            None => None,
        }
    }

    /// A graph without vertices or arcs.
    pub fn new() -> (g: Self)
        ensures
            g.wf(),
            g.vertices@.len() == 0,
            g.arcs@.len() == 0,
            g.free_arc_head is None,
            g.edge_count == 0,
    {
        let g = OrthogonalList {
            vertices: Vec::new(),
            arcs: Vec::new(),
            free_arc_head: None,
            edge_count: 0,
        };
        proof {
            assert(live_arcs(g.arcs@) =~= Set::empty());
        }
        g
    }

    /// Appends a vertex without arcs and returns its index.
    pub fn add_vertex(&mut self, data: T) -> (index: usize)
        requires
            old(self).wf(),
        ensures
            final(self).wf(),
            index == old(self).vertices@.len(),
            final(self).vertices@ == old(self).vertices@.push(
                OLVertex { data, first_in: None, first_out: None },
            ),
            final(self).arcs@ == old(self).arcs@,
            final(self).edge_count == old(self).edge_count,
            final(self).free_arc_head == old(self).free_arc_head,
    {
        let index = self.vertices.len();
        self.vertices.push(OLVertex { data, first_in: None, first_out: None });
        proof {
            assert forall|i: int| arc_live(self.arcs@, i) implies #[trigger] self.arc_ok(i) by {
                assert(old(self).arc_ok(i));
                let a = self.arcs@[i].unwrap();
                assert(self.vertices@[a.tail_vex as int] == old(self).vertices@[a.tail_vex as int]);
                assert(self.vertices@[a.head_vex as int] == old(self).vertices@[a.head_vex as int]);
            }
            assert forall|v: int| 0 <= v < self.vertices@.len() implies #[trigger] self.vertex_ok(
                v,
            ) by {
                if v < index {
                    assert(old(self).vertex_ok(v));
                }
            }
        }
        index
    }

    /// The payload of vertex `index`, if there is such a vertex.
    pub fn get_vertex_data(&self, index: usize) -> (data: Option<&T>)
        ensures
            index < self.vertices@.len() ==> data == Some(&self.vertices@[index as int].data),
            index >= self.vertices@.len() ==> data is None,
    {
        if index < self.vertices.len() {
            Some(&self.vertices[index].data)
        } else {
            None
        }
    }

    /// Puts `arc` into a fresh slot at the end of the arena and returns the slot.
    fn alloc_arc(&mut self, arc: OLArc<W>) -> (slot: usize)
        ensures
            slot == old(self).arcs@.len(),
            final(self).arcs@ == old(self).arcs@.push(Some(arc)),
            final(self).arcs@.len() <= usize::MAX,
            final(self).vertices == old(self).vertices,
            final(self).edge_count == old(self).edge_count,
            final(self).free_arc_head == old(self).free_arc_head,
    {
        self.arcs.push(Some(arc));
        self.arcs.len() - 1
    }

    /// Adds an arc from `from` to `to` in front of both chains it belongs to.
    pub fn add_edge(&mut self, from: usize, to: usize, weight: W)
        requires
            old(self).wf(),
            from < old(self).vertices@.len(),
            to < old(self).vertices@.len(),
        ensures
            final(self).wf(),
            final(self).arcs@ == old(self).arcs@.push(
                Some(
                    OLArc {
                        tail_vex: from,
                        head_vex: to,
                        head_link: old(self).vertices@[to as int].first_in,
                        tail_link: old(self).vertices@[from as int].first_out,
                        weight,
                    },
                ),
            ),
            final(self).vertices@.len() == old(self).vertices@.len(),
            forall|v: int|
                0 <= v < old(self).vertices@.len() ==> {
                    let before = old(self).vertices@[v];
                    let after = #[trigger] final(self).vertices@[v];
                    &&& after.data == before.data
                    &&& after.first_out == if v == from {
                        Some(old(self).arcs@.len() as usize)
                    } else {
                        before.first_out
                    }
                    &&& after.first_in == if v == to {
                        Some(old(self).arcs@.len() as usize)
                    } else {
                        before.first_in
                    }
                },
            final(self).edge_count == old(self).edge_count + 1,
            final(self).free_arc_head == old(self).free_arc_head,
            forall|v: int|
                0 <= v < old(self).vertices@.len() ==> #[trigger] final(self).out_chain(v) == if v
                    == from {
                    seq![old(self).arcs@.len() as int] + old(self).out_chain(v)
                } else {
                    old(self).out_chain(v)
                },
            forall|v: int|
                0 <= v < old(self).vertices@.len() ==> #[trigger] final(self).in_chain(v) == if v
                    == to {
                    seq![old(self).arcs@.len() as int] + old(self).in_chain(v)
                } else {
                    old(self).in_chain(v)
                },
            final(self).find_arc(from as int, to as int) == Some(old(self).arcs@.len() as int),
            final(self).edge_weight(from as int, to as int) == Some(weight),
    {
        let tail_link = self.vertices[from].first_out;
        let head_link = self.vertices[to].first_in;
        let arc = OLArc { tail_vex: from, head_vex: to, head_link, tail_link, weight };
        let arc_idx = self.alloc_arc(arc);
        self.vertices[from].first_out = Some(arc_idx);
        self.vertices[to].first_in = Some(arc_idx);
        proof {
            lemma_live_arcs_bounded(old(self).arcs@);
        }
        self.edge_count += 1;
        proof {
            assert(self.arcs@.drop_last() =~= old(self).arcs@);
            old(self).lemma_arc_added(*self, from as int, to as int);
        }
    }

    /// Adding an arc in front of its two chains keeps the chains sound.
    pub proof fn lemma_arc_added(self, after: Self, from: int, to: int)
        requires
            self.wf(),
            0 <= from < self.vertices@.len(),
            0 <= to < self.vertices@.len(),
            after.arcs@.len() == self.arcs@.len() + 1,
            after.arcs@.drop_last() == self.arcs@,
            after.arcs@.last() matches Some(a) && a.tail_vex == from && a.head_vex == to
                && a.tail_link == self.vertices@[from].first_out && a.head_link
                == self.vertices@[to].first_in,
            after.vertices@.len() == self.vertices@.len(),
            forall|v: int|
                0 <= v < self.vertices@.len() ==> {
                    let before = self.vertices@[v];
                    let now = #[trigger] after.vertices@[v];
                    &&& link_int(now.first_out) == if v == from {
                        Some(self.arcs@.len() as int)
                    } else {
                        link_int(before.first_out)
                    }
                    &&& link_int(now.first_in) == if v == to {
                        Some(self.arcs@.len() as int)
                    } else {
                        link_int(before.first_in)
                    }
                },
            after.edge_count == self.edge_count + 1,
        ensures
            after.wf(),
            forall|v: int|
                0 <= v < self.vertices@.len() ==> #[trigger] after.out_chain(v) == if v == from {
                    seq![self.arcs@.len() as int] + self.out_chain(v)
                } else {
                    self.out_chain(v)
                },
            forall|v: int|
                0 <= v < self.vertices@.len() ==> #[trigger] after.in_chain(v) == if v == to {
                    seq![self.arcs@.len() as int] + self.in_chain(v)
                } else {
                    self.in_chain(v)
                },
            after.find_arc(from, to) == Some(self.arcs@.len() as int),
            after.edge_weight(from, to) == Some(after.arcs@.last().unwrap().weight),
    {
        let n = self.arcs@.len() as int;
        let o1 = out_links(self.arcs@);
        let o2 = out_links(after.arcs@);
        let i1 = in_links(self.arcs@);
        let i2 = in_links(after.arcs@);
        assert forall|k: int| 0 <= k < n implies after.arcs@[k] == self.arcs@[k] by {
            assert(after.arcs@.drop_last()[k] == after.arcs@[k]);
        }
        assert(self.vertex_ok(from));
        assert(self.vertex_ok(to));
        assert forall|k: int| o2.dom().contains(k) implies #[trigger] link_ok(o2, k) by {
            if k < n {
                assert(link_ok(o1, k));
            }
        }
        assert forall|k: int| i2.dom().contains(k) implies #[trigger] link_ok(i2, k) by {
            if k < n {
                assert(link_ok(i1, k));
            }
        }
        lemma_walk_unfold(o2, n);
        lemma_walk_unfold(i2, n);
        assert forall|v: int| 0 <= v < self.vertices@.len() implies #[trigger] after.out_chain(v)
            == if v == from {
            seq![n] + self.out_chain(v)
        } else {
            self.out_chain(v)
        } by {
            // A chain that starts at an old slot is as before.
            let start = link_int(self.vertices@[v].first_out);
            assert(self.vertex_ok(v));
            lemma_walk_shape(o1, start);
            lemma_walk_frame(o1, o2, start);
            let now = after.vertices@[v];
            assert(link_int(now.first_out) == if v == from {
                Some(n)
            } else {
                start
            });
            if v == from {
                assert(o2[n] == start);
            }
        }
        assert forall|v: int| 0 <= v < self.vertices@.len() implies #[trigger] after.in_chain(v)
            == if v == to {
            seq![n] + self.in_chain(v)
        } else {
            self.in_chain(v)
        } by {
            let start = link_int(self.vertices@[v].first_in);
            assert(self.vertex_ok(v));
            lemma_walk_shape(i1, start);
            lemma_walk_frame(i1, i2, start);
            let now = after.vertices@[v];
            assert(link_int(now.first_in) == if v == to {
                Some(n)
            } else {
                start
            });
            if v == to {
                assert(i2[n] == start);
            }
        }
        assert forall|k: int| arc_live(after.arcs@, k) implies #[trigger] after.arc_ok(k) by {
            let a = after.arcs@[k].unwrap();
            if k < n {
                assert(self.arc_ok(k));
                assert(link_ok(o1, k));
                assert(link_ok(i1, k));
                let t = a.tail_vex as int;
                let h = a.head_vex as int;
                assert(after.out_chain(t) == if t == from {
                    seq![n] + self.out_chain(t)
                } else {
                    self.out_chain(t)
                });
                assert(after.in_chain(h) == if h == to {
                    seq![n] + self.in_chain(h)
                } else {
                    self.in_chain(h)
                });
                let jo = choose|j: int|
                    0 <= j < self.out_chain(t).len() && self.out_chain(t)[j] == k;
                assert((seq![n] + self.out_chain(t))[jo + 1] == k);
                assert(self.out_chain(t)[jo] == k);
                assert(after.out_chain(t).contains(k));
                let ji = choose|j: int| 0 <= j < self.in_chain(h).len() && self.in_chain(h)[j] == k;
                assert((seq![n] + self.in_chain(h))[ji + 1] == k);
                assert(self.in_chain(h)[ji] == k);
                assert(after.in_chain(h).contains(k));
            } else {
                assert(after.out_chain(from) == seq![n] + self.out_chain(from));
                assert(after.in_chain(to) == seq![n] + self.in_chain(to));
                assert(after.out_chain(from)[0] == n);
                assert(after.in_chain(to)[0] == n);
                assert(after.out_chain(from).contains(n));
                assert(after.in_chain(to).contains(n));
                assert(link_int(a.tail_link) == link_int(self.vertices@[from].first_out));
                assert(link_int(a.head_link) == link_int(self.vertices@[to].first_in));
            }
        }
        assert forall|v: int| 0 <= v < after.vertices@.len() implies #[trigger] after.vertex_ok(
            v,
        ) by {
            assert(self.vertex_ok(v));
            let before = self.vertices@[v];
            let now = after.vertices@[v];
            assert(link_int(now.first_out) == if v == from {
                Some(n)
            } else {
                link_int(before.first_out)
            });
            assert(link_int(now.first_in) == if v == to {
                Some(n)
            } else {
                link_int(before.first_in)
            });
        }
        lemma_live_arcs_bounded(self.arcs@);
        assert(live_arcs(after.arcs@) =~= live_arcs(self.arcs@).insert(n));
        assert(after.out_chain(from) == seq![n] + self.out_chain(from));
        assert(after.out_chain(from).len() > 0 && after.out_chain(from)[0] == n);
    }

    /// The weight of the most recently added arc from `from` to `to`, if there is one.
    pub fn get_edge(&self, from: usize, to: usize) -> (weight: Option<&W>)
        requires
            self.wf(),
        ensures
            weight is Some <==> self.find_arc(from as int, to as int) is Some,
            weight matches Some(w) ==> Some(*w) == self.edge_weight(from as int, to as int),
    {
        if from >= self.vertices.len() || to >= self.vertices.len() {
            return None;
        }
        let ghost links = out_links(self.arcs@);
        let ghost chain = self.out_chain(from as int);
        let ghost mut pos: int = 0;
        let mut curr = self.vertices[from].first_out;
        proof {
            assert(self.vertex_ok(from as int));
            lemma_walk_shape(links, link_int(curr));
            super::chain::lemma_walk_empty(links, link_int(curr));
        }
        while curr.is_some()
            invariant
                self.wf(),
                from < self.vertices@.len(),
                to < self.vertices@.len(),
                links == out_links(self.arcs@),
                chain == self.out_chain(from as int),
                chain == walk(links, link_int(self.vertices@[from as int].first_out)),
                0 <= pos <= chain.len(),
                link_int(curr) == if pos < chain.len() {
                    Some(chain[pos])
                } else {
                    None
                },
                forall|j: int|
                    0 <= j < pos ==> self.arcs@[#[trigger] chain[j]].unwrap().head_vex != to,
            decreases chain.len() - pos,
        {
            let idx = curr.unwrap();
            proof {
                lemma_walk_shape(links, link_int(self.vertices@[from as int].first_out));
                assert(links.dom().contains(chain[pos]));
                assert(arc_live(self.arcs@, idx as int));
            }
            match &self.arcs[idx] {
                Some(arc) => {
                    if arc.head_vex == to {
                        proof {
                            lemma_first_entering_at(self.arcs@, chain, to as int, pos);
                        }
                        return Some(&arc.weight);
                    }
                    proof {
                        if pos < chain.len() - 1 {
                            assert(links[chain[pos]] == Some(chain[pos + 1]));
                        } else {
                            assert(chain[pos] == chain.last());
                        }
                        pos = pos + 1;
                    }
                    curr = arc.tail_link;
                },
                None => {
                    return None;
                },
            }
        }
        proof {
            lemma_first_entering_none(self.arcs@, chain, to as int);
        }
        None
    }

    /// Removes the most recently added arc from `from` to `to`, if there is
    /// one: the arc leaves both chains it was in and its slot is emptied.
    #[verifier::rlimit(40)]
    pub fn remove_edge(&mut self, from: usize, to: usize)
        requires
            old(self).wf(),
        ensures
            final(self).wf(),
            old(self).find_arc(from as int, to as int) is None ==> *final(self) == *old(self),
            old(self).find_arc(from as int, to as int) matches Some(t) ==> {
                &&& final(self).arcs@ == unlink_arc(old(self).arcs@, t)
                &&& final(self).vertices@ == unhook_arc(old(self).vertices@, old(self).arcs@, t)
                &&& final(self).edge_count == old(self).edge_count - 1
                &&& final(self).free_arc_head == old(self).free_arc_head
                &&& !arc_live(final(self).arcs@, t)
                &&& forall|v: int|
                    0 <= v < old(self).vertices@.len() ==> #[trigger] final(self).out_chain(v)
                        == without(old(self).out_chain(v), t)
                &&& forall|v: int|
                    0 <= v < old(self).vertices@.len() ==> #[trigger] final(self).in_chain(v)
                        == without(old(self).in_chain(v), t)
                &&& !final(self).out_chain(from as int).contains(t)
                &&& !final(self).in_chain(to as int).contains(t)
            },
    {
        if from >= self.vertices.len() || to >= self.vertices.len() {
            return ;
        }
        let ghost olinks = out_links(self.arcs@);
        let ghost chain = self.out_chain(from as int);
        let ghost mut pos: int = 0;
        let mut prev: Option<usize> = None;
        let mut curr = self.vertices[from].first_out;
        let mut target_idx_opt: Option<usize> = None;
        let mut next_link: Option<usize> = None;
        proof {
            assert(self.vertex_ok(from as int));
            lemma_walk_shape(olinks, link_int(curr));
        }
        while curr.is_some() && target_idx_opt.is_none()
            invariant
                *self == *old(self),
                self.wf(),
                from < self.vertices@.len(),
                to < self.vertices@.len(),
                olinks == out_links(self.arcs@),
                chain == walk(olinks, link_int(self.vertices@[from as int].first_out)),
                0 <= pos <= chain.len(),
                link_int(curr) == if pos < chain.len() {
                    Some(chain[pos])
                } else {
                    None
                },
                link_int(prev) == if pos > 0 {
                    Some(chain[pos - 1])
                } else {
                    None
                },
                forall|j: int|
                    0 <= j < pos ==> self.arcs@[#[trigger] chain[j]].unwrap().head_vex != to,
                target_idx_opt matches Some(t) ==> pos < chain.len() && t == chain[pos]
                    && self.arcs@[t as int].unwrap().head_vex == to && next_link
                    == self.arcs@[t as int].unwrap().tail_link,
            decreases chain.len() - pos + if target_idx_opt is None { 1int } else { 0int },
        {
            let idx = curr.unwrap();
            proof {
                lemma_walk_shape(olinks, link_int(self.vertices@[from as int].first_out));
                assert(olinks.dom().contains(chain[pos]));
                assert(arc_live(self.arcs@, idx as int));
            }
            let (is_target, link) = match &self.arcs[idx] {
                Some(arc) => (arc.head_vex == to, arc.tail_link),
                None => (false, None),
            };
            if is_target {
                target_idx_opt = Some(idx);
                next_link = link;
            } else {
                proof {
                    if pos < chain.len() - 1 {
                        assert(olinks[chain[pos]] == Some(chain[pos + 1]));
                    } else {
                        assert(chain[pos] == chain.last());
                    }
                    pos = pos + 1;
                }
                prev = Some(idx);
                curr = link;
            }
        }

        if let Some(target_idx) = target_idx_opt {
            let ghost t = target_idx as int;
            proof {
                lemma_first_entering_at(self.arcs@, chain, to as int, pos);
                lemma_walk_shape(olinks, link_int(self.vertices@[from as int].first_out));
                assert(olinks.dom().contains(chain[pos]));
                assert(self.arc_ok(t));
                lemma_live_arcs_bounded(self.arcs@);
                assert(live_arcs(self.arcs@).contains(t));
            }
            if let Some(p) = prev {
                proof {
                    assert(olinks.dom().contains(chain[pos - 1]));
                }
                match &mut self.arcs[p] {
                    Some(prev_arc) => {
                        prev_arc.tail_link = next_link;
                    },
                    None => {},
                }
            } else {
                self.vertices[from].first_out = next_link;
            }
            let ghost mid = *self;
            proof {
                assert(old(self).out_bypassed(mid, from as int, pos)) by {
                    if pos > 0 {
                        assert(mid.arcs@ =~= old(self).arcs@.update(
                            chain[pos - 1],
                            Some(
                                OLArc {
                                    tail_vex: old(self).arcs@[chain[pos - 1]].unwrap().tail_vex,
                                    head_vex: old(self).arcs@[chain[pos - 1]].unwrap().head_vex,
                                    head_link: old(self).arcs@[chain[pos - 1]].unwrap().head_link,
                                    tail_link: next_link,
                                    weight: old(self).arcs@[chain[pos - 1]].unwrap().weight,
                                },
                            ),
                        ));
                    } else {
                        assert(mid.vertices@ =~= old(self).vertices@.update(
                            from as int,
                            OLVertex {
                                data: old(self).vertices@[from as int].data,
                                first_in: old(self).vertices@[from as int].first_in,
                                first_out: next_link,
                            },
                        ));
                    }
                }
                old(self).lemma_in_chains_kept(mid, from as int, pos);
            }

            let ghost ilinks = in_links(mid.arcs@);
            let ghost ichain = mid.in_chain(to as int);
            let ghost mut ipos: int = 0;
            let mut prev: Option<usize> = None;
            let mut curr = self.vertices[to].first_in;
            let mut found_in_list = false;
            let mut next_link_in: Option<usize> = None;
            proof {
                assert(old(self).vertex_ok(to as int));
                lemma_walk_shape(ilinks, link_int(curr));
                assert(ichain.contains(t));
            }
            while curr.is_some() && !found_in_list
                invariant
                    *self == mid,
                    to < self.vertices@.len(),
                    ilinks == in_links(self.arcs@),
                    descending(ilinks),
                    link_int(self.vertices@[to as int].first_in) matches Some(h)
                        ==> ilinks.dom().contains(h),
                    ichain == walk(ilinks, link_int(self.vertices@[to as int].first_in)),
                    ichain.contains(t),
                    t == target_idx,
                    0 <= ipos <= ichain.len(),
                    link_int(curr) == if ipos < ichain.len() {
                        Some(ichain[ipos])
                    } else {
                        None
                    },
                    link_int(prev) == if ipos > 0 {
                        Some(ichain[ipos - 1])
                    } else {
                        None
                    },
                    forall|j: int| 0 <= j < ipos ==> #[trigger] ichain[j] != t,
                    found_in_list ==> ipos < ichain.len() && ichain[ipos] == t && next_link_in
                        == self.arcs@[t].unwrap().head_link,
                decreases ichain.len() - ipos + if found_in_list { 0int } else { 1int },
            {
                let idx = curr.unwrap();
                proof {
                    lemma_walk_shape(ilinks, link_int(self.vertices@[to as int].first_in));
                    assert(ilinks.dom().contains(ichain[ipos]));
                }
                let (is_target, link) = match &self.arcs[idx] {
                    Some(arc) => (idx == target_idx, arc.head_link),
                    None => (false, None),
                };
                if is_target {
                    found_in_list = true;
                    next_link_in = link;
                } else {
                    proof {
                        if ipos < ichain.len() - 1 {
                            assert(ilinks[ichain[ipos]] == Some(ichain[ipos + 1]));
                        } else {
                            assert(ichain[ipos] == ichain.last());
                        }
                        ipos = ipos + 1;
                    }
                    prev = Some(idx);
                    curr = link;
                }
            }
            proof {
                if !found_in_list {
                    let j = choose|j: int| 0 <= j < ichain.len() && ichain[j] == t;
                    assert(ichain[j] != t);
                }
                lemma_walk_shape(ilinks, link_int(self.vertices@[to as int].first_in));
                if ipos > 0 {
                    assert(ilinks.dom().contains(ichain[ipos - 1]));
                }
            }

            if found_in_list {
                if let Some(p) = prev {
                    match &mut self.arcs[p] {
                        Some(prev_arc) => {
                            prev_arc.head_link = next_link_in;
                        },
                        None => {},
                    }
                } else {
                    self.vertices[to].first_in = next_link_in;
                }
            }
            let ghost last = *self;
            proof {
                assert(mid.in_bypassed(last, to as int, ipos)) by {
                    if ipos > 0 {
                        assert(last.arcs@ =~= mid.arcs@.update(
                            ichain[ipos - 1],
                            Some(
                                OLArc {
                                    tail_vex: mid.arcs@[ichain[ipos - 1]].unwrap().tail_vex,
                                    head_vex: mid.arcs@[ichain[ipos - 1]].unwrap().head_vex,
                                    head_link: next_link_in,
                                    tail_link: mid.arcs@[ichain[ipos - 1]].unwrap().tail_link,
                                    weight: mid.arcs@[ichain[ipos - 1]].unwrap().weight,
                                },
                            ),
                        ));
                    } else {
                        assert(last.vertices@ =~= mid.vertices@.update(
                            to as int,
                            OLVertex {
                                data: mid.vertices@[to as int].data,
                                first_in: next_link_in,
                                first_out: mid.vertices@[to as int].first_out,
                            },
                        ));
                    }
                }
            }

            self.arcs[target_idx] = None;
            self.edge_count -= 1;

            proof {
                old(self).lemma_bypassed_both(mid, last, *self, from as int, to as int, pos, ipos);
                old(self).lemma_arc_unlinked(*self, t);
                lemma_without_contains(old(self).out_chain(from as int), t, t);
                lemma_without_contains(old(self).in_chain(to as int), t, t);
            }
        } else {
            proof {
                lemma_first_entering_none(self.arcs@, chain, to as int);
            }
        }
    }

    /// `after` is `self` with the member at position `pos` of the chain of
    /// arcs that leave `from` bypassed: the member before it, or the chain
    /// head, names the member after it. Nothing else differs.
    spec fn out_bypassed(self, after: Self, from: int, pos: int) -> bool {
        let c = self.out_chain(from);
        let past = self.arcs@[c[pos]].unwrap().tail_link;
        &&& after.edge_count == self.edge_count
        &&& after.free_arc_head == self.free_arc_head
        &&& pos == 0 ==> after.arcs@ == self.arcs@ && after.vertices@ == self.vertices@.update(
            from,
            OLVertex {
                data: self.vertices@[from].data,
                first_in: self.vertices@[from].first_in,
                first_out: past,
            },
        )
        &&& pos > 0 ==> after.vertices@ == self.vertices@ && after.arcs@ == self.arcs@.update(
            c[pos - 1],
            Some(
                OLArc {
                    tail_vex: self.arcs@[c[pos - 1]].unwrap().tail_vex,
                    head_vex: self.arcs@[c[pos - 1]].unwrap().head_vex,
                    head_link: self.arcs@[c[pos - 1]].unwrap().head_link,
                    tail_link: past,
                    weight: self.arcs@[c[pos - 1]].unwrap().weight,
                },
            ),
        )
    }

    /// `after` is `self` with the member at position `pos` of the chain of
    /// arcs that enter `to` bypassed. Nothing else differs.
    spec fn in_bypassed(self, after: Self, to: int, pos: int) -> bool {
        let c = self.in_chain(to);
        let past = self.arcs@[c[pos]].unwrap().head_link;
        &&& after.edge_count == self.edge_count
        &&& after.free_arc_head == self.free_arc_head
        &&& pos == 0 ==> after.arcs@ == self.arcs@ && after.vertices@ == self.vertices@.update(
            to,
            OLVertex {
                data: self.vertices@[to].data,
                first_in: past,
                first_out: self.vertices@[to].first_out,
            },
        )
        &&& pos > 0 ==> after.vertices@ == self.vertices@ && after.arcs@ == self.arcs@.update(
            c[pos - 1],
            Some(
                OLArc {
                    tail_vex: self.arcs@[c[pos - 1]].unwrap().tail_vex,
                    head_vex: self.arcs@[c[pos - 1]].unwrap().head_vex,
                    head_link: past,
                    tail_link: self.arcs@[c[pos - 1]].unwrap().tail_link,
                    weight: self.arcs@[c[pos - 1]].unwrap().weight,
                },
            ),
        )
    }

    /// Bypassing an arc in a chain of leaving arcs leaves the chains of
    /// entering arcs as they were.
    proof fn lemma_in_chains_kept(self, mid: Self, from: int, pos: int)
        requires
            self.wf(),
            0 <= from < self.vertices@.len(),
            0 <= pos < self.out_chain(from).len(),
            self.out_bypassed(mid, from, pos),
        ensures
            in_links(mid.arcs@) == in_links(self.arcs@),
            descending(in_links(mid.arcs@)),
            mid.vertices@.len() == self.vertices@.len(),
            mid.arcs@.len() == self.arcs@.len(),
            forall|v: int|
                0 <= v < self.vertices@.len() ==> (#[trigger] mid.vertices@[v]).first_in
                    == self.vertices@[v].first_in,
            forall|v: int| 0 <= v < self.vertices@.len() ==> mid.in_chain(v) == self.in_chain(v),
            mid.arcs@[self.out_chain(from)[pos]] == self.arcs@[self.out_chain(from)[pos]],
    {
        let c = self.out_chain(from);
        self.lemma_chain_members(from);
        assert(self.vertex_ok(from));
        lemma_walk_no_duplicates(out_links(self.arcs@), link_int(self.vertices@[from].first_out));
        if pos > 0 {
            assert(arc_live(self.arcs@, c[pos - 1]));
            assert(c[pos - 1] != c[pos]);
        }
        assert(in_links(mid.arcs@) =~= in_links(self.arcs@));
    }

    /// Bypassing a live arc in the chain of its tail and in the chain of its
    /// head, one after the other, and emptying its slot unlinks the arc.
    proof fn lemma_bypassed_both(
        self,
        mid: Self,
        last: Self,
        after: Self,
        from: int,
        to: int,
        pos: int,
        ipos: int,
    )
        requires
            self.wf(),
            0 <= from < self.vertices@.len(),
            0 <= to < self.vertices@.len(),
            0 <= pos < self.out_chain(from).len(),
            0 <= ipos < self.in_chain(to).len(),
            self.out_chain(from)[pos] == self.in_chain(to)[ipos],
            self.out_bypassed(mid, from, pos),
            mid.in_bypassed(last, to, ipos),
            after.arcs@ == last.arcs@.update(self.out_chain(from)[pos], None),
            after.vertices@ == last.vertices@,
        ensures
            arc_live(self.arcs@, self.out_chain(from)[pos]),
            after.arcs@ == unlink_arc(self.arcs@, self.out_chain(from)[pos]),
            after.vertices@ == unhook_arc(self.vertices@, self.arcs@, self.out_chain(from)[pos]),
    {
        let t = self.out_chain(from)[pos];
        let oc = self.out_chain(from);
        let ic = self.in_chain(to);
        self.lemma_chain_members(from);
        assert(arc_live(self.arcs@, oc[pos]));
        self.lemma_in_chains_kept(mid, from, pos);
        assert(mid.in_chain(to) == ic);
        self.lemma_sole_predecessors(from, to, t, pos, ipos);
        let gone = self.arcs@[t].unwrap();
        let target = unlink_arc(self.arcs@, t);
        self.lemma_chain_members(to);
        if ipos > 0 {
            assert(arc_live(self.arcs@, ic[ipos - 1]));
        }
        if pos > 0 {
            assert(arc_live(self.arcs@, oc[pos - 1]));
        }
        assert(after.arcs@.len() == target.len());
        assert forall|k: int| 0 <= k < self.arcs@.len() implies after.arcs@[k] == target[k] by {
            if k != t && self.arcs@[k] is Some {
                let a = self.arcs@[k].unwrap();
                assert(arc_live(self.arcs@, k));
                let is_po = pos > 0 && k == oc[pos - 1];
                let is_pi = ipos > 0 && k == ic[ipos - 1];
                let m = mid.arcs@[k].unwrap();
                let l = last.arcs@[k].unwrap();
                assert(m.tail_link == if is_po {
                    gone.tail_link
                } else {
                    a.tail_link
                });
                assert(m.head_link == a.head_link);
                assert(l.head_link == if is_pi {
                    gone.head_link
                } else {
                    a.head_link
                });
                assert(l.tail_link == m.tail_link);
                assert(after.arcs@[k] == Some(l));
            }
        }
        assert(after.arcs@ =~= target);
        let hooked = unhook_arc(self.vertices@, self.arcs@, t);
        assert forall|v: int| 0 <= v < self.vertices@.len() implies after.vertices@[v]
            == hooked[v] by {}
        assert(after.vertices@ =~= hooked);
    }

    /// In a sound list only the member just before arc `t` in each of its two
    /// chains, or the chain head, names `t`.
    proof fn lemma_sole_predecessors(self, from: int, to: int, t: int, pos: int, ipos: int)
        requires
            self.wf(),
            0 <= from < self.vertices@.len(),
            0 <= to < self.vertices@.len(),
            arc_live(self.arcs@, t),
            0 <= pos < self.out_chain(from).len(),
            self.out_chain(from)[pos] == t,
            0 <= ipos < self.in_chain(to).len(),
            self.in_chain(to)[ipos] == t,
        ensures
            self.arcs@[t].unwrap().tail_vex == from,
            self.arcs@[t].unwrap().head_vex == to,
            forall|k: int|
                arc_live(self.arcs@, k) && link_int(
                    (#[trigger] self.arcs@[k]).unwrap().tail_link,
                ) == Some(t) ==> pos > 0 && k == self.out_chain(from)[pos - 1],
            forall|k: int|
                arc_live(self.arcs@, k) && link_int(
                    (#[trigger] self.arcs@[k]).unwrap().head_link,
                ) == Some(t) ==> ipos > 0 && k == self.in_chain(to)[ipos - 1],
            forall|v: int|
                0 <= v < self.vertices@.len() && link_int(
                    (#[trigger] self.vertices@[v]).first_out,
                ) == Some(t) ==> v == from && pos == 0,
            forall|v: int|
                0 <= v < self.vertices@.len() && link_int((#[trigger] self.vertices@[v]).first_in)
                    == Some(t) ==> v == to && ipos == 0,
            pos == 0 ==> link_int(self.vertices@[from].first_out) == Some(t),
            ipos == 0 ==> link_int(self.vertices@[to].first_in) == Some(t),
            pos > 0 ==> arc_live(self.arcs@, self.out_chain(from)[pos - 1]) && link_int(
                self.arcs@[self.out_chain(from)[pos - 1]].unwrap().tail_link,
            ) == Some(t),
            ipos > 0 ==> arc_live(self.arcs@, self.in_chain(to)[ipos - 1]) && link_int(
                self.arcs@[self.in_chain(to)[ipos - 1]].unwrap().head_link,
            ) == Some(t),
    {
        let ol = out_links(self.arcs@);
        let il = in_links(self.arcs@);
        let oc = self.out_chain(from);
        let ic = self.in_chain(to);
        let ostart = link_int(self.vertices@[from].first_out);
        let istart = link_int(self.vertices@[to].first_in);
        assert(self.vertex_ok(from));
        assert(self.vertex_ok(to));
        assert(self.arc_ok(t));
        lemma_walk_shape(ol, ostart);
        lemma_walk_shape(il, istart);
        lemma_walk_no_duplicates(ol, ostart);
        lemma_walk_no_duplicates(il, istart);
        self.lemma_chain_members(from);
        self.lemma_chain_members(to);
        assert(oc[pos] == t);
        assert(ic[ipos] == t);
        if pos > 0 {
            assert(ol.dom().contains(oc[pos - 1]));
            assert(ol[oc[pos - 1]] == Some(oc[pos]));
        }
        if ipos > 0 {
            assert(il.dom().contains(ic[ipos - 1]));
            assert(il[ic[ipos - 1]] == Some(ic[ipos]));
        }
        assert forall|k: int|
            arc_live(self.arcs@, k) && link_int((#[trigger] self.arcs@[k]).unwrap().tail_link)
                == Some(t) implies pos > 0 && k == oc[pos - 1] by {
            assert(self.arc_ok(k));
            let j = choose|j: int| 0 <= j < oc.len() && oc[j] == k;
            assert(ol[oc[j]] == Some(t));
            if j == oc.len() - 1 {
                assert(oc[j] == oc.last());
            } else {
                assert(ol[oc[j]] == Some(oc[j + 1]));
            }
        }
        assert forall|k: int|
            arc_live(self.arcs@, k) && link_int((#[trigger] self.arcs@[k]).unwrap().head_link)
                == Some(t) implies ipos > 0 && k == ic[ipos - 1] by {
            assert(self.arc_ok(k));
            let j = choose|j: int| 0 <= j < ic.len() && ic[j] == k;
            assert(il[ic[j]] == Some(t));
            if j == ic.len() - 1 {
                assert(ic[j] == ic.last());
            } else {
                assert(il[ic[j]] == Some(ic[j + 1]));
            }
        }
        assert forall|v: int|
            0 <= v < self.vertices@.len() && link_int((#[trigger] self.vertices@[v]).first_out)
                == Some(t) implies v == from && pos == 0 by {
            assert(self.vertex_ok(v));
            assert(oc[0] == t);
        }
        assert forall|v: int|
            0 <= v < self.vertices@.len() && link_int((#[trigger] self.vertices@[v]).first_in)
                == Some(t) implies v == to && ipos == 0 by {
            assert(self.vertex_ok(v));
            assert(ic[0] == t);
        }
    }

    /// Every member of the chains of vertex `v` is a live arc that leaves,
    /// respectively enters, `v`, and no arc occurs twice in a chain.
    pub proof fn lemma_chain_members(self, v: int)
        requires
            self.wf(),
            0 <= v < self.vertices@.len(),
        ensures
            self.out_chain(v).no_duplicates(),
            self.in_chain(v).no_duplicates(),
            forall|j: int|
                0 <= j < self.out_chain(v).len() ==> arc_live(
                    self.arcs@,
                    #[trigger] self.out_chain(v)[j],
                ) && self.arcs@[self.out_chain(v)[j]].unwrap().tail_vex == v,
            forall|j: int|
                0 <= j < self.in_chain(v).len() ==> arc_live(
                    self.arcs@,
                    #[trigger] self.in_chain(v)[j],
                ) && self.arcs@[self.in_chain(v)[j]].unwrap().head_vex == v,
    {
        let oc = self.out_chain(v);
        let ic = self.in_chain(v);
        let ol = out_links(self.arcs@);
        let il = in_links(self.arcs@);
        assert(self.vertex_ok(v));
        lemma_walk_shape(ol, link_int(self.vertices@[v].first_out));
        lemma_walk_shape(il, link_int(self.vertices@[v].first_in));
        lemma_walk_no_duplicates(ol, link_int(self.vertices@[v].first_out));
        lemma_walk_no_duplicates(il, link_int(self.vertices@[v].first_in));
        assert forall|j: int| 0 <= j < oc.len() implies arc_live(self.arcs@, #[trigger] oc[j])
            && self.arcs@[oc[j]].unwrap().tail_vex == v by {
            self.lemma_out_member(v, j);
        }
        assert forall|j: int| 0 <= j < ic.len() implies arc_live(self.arcs@, #[trigger] ic[j])
            && self.arcs@[ic[j]].unwrap().head_vex == v by {
            self.lemma_in_member(v, j);
        }
    }

    proof fn lemma_out_member(self, v: int, j: int)
        requires
            self.wf(),
            0 <= v < self.vertices@.len(),
            0 <= j < self.out_chain(v).len(),
        ensures
            arc_live(self.arcs@, self.out_chain(v)[j]),
            self.arcs@[self.out_chain(v)[j]].unwrap().tail_vex == v,
        decreases j,
    {
        let oc = self.out_chain(v);
        let ol = out_links(self.arcs@);
        assert(self.vertex_ok(v));
        lemma_walk_shape(ol, link_int(self.vertices@[v].first_out));
        assert(ol.dom().contains(oc[j]));
        if j > 0 {
            self.lemma_out_member(v, j - 1);
            assert(ol[oc[j - 1]] == Some(oc[j]));
            assert(self.arc_ok(oc[j - 1]));
        }
    }

    proof fn lemma_in_member(self, v: int, j: int)
        requires
            self.wf(),
            0 <= v < self.vertices@.len(),
            0 <= j < self.in_chain(v).len(),
        ensures
            arc_live(self.arcs@, self.in_chain(v)[j]),
            self.arcs@[self.in_chain(v)[j]].unwrap().head_vex == v,
        decreases j,
    {
        let ic = self.in_chain(v);
        let il = in_links(self.arcs@);
        assert(self.vertex_ok(v));
        lemma_walk_shape(il, link_int(self.vertices@[v].first_in));
        assert(il.dom().contains(ic[j]));
        if j > 0 {
            self.lemma_in_member(v, j - 1);
            assert(il[ic[j - 1]] == Some(ic[j]));
            assert(self.arc_ok(ic[j - 1]));
        }
    }

    /// Unlinking a live arc keeps the chains sound, and takes the arc out of
    /// every chain without moving any other member.
    pub proof fn lemma_arc_unlinked(self, after: Self, t: int)
        requires
            self.wf(),
            arc_live(self.arcs@, t),
            after.arcs@ == unlink_arc(self.arcs@, t),
            after.vertices@ == unhook_arc(self.vertices@, self.arcs@, t),
            after.edge_count == self.edge_count - 1,
        ensures
            after.wf(),
            forall|v: int|
                0 <= v < self.vertices@.len() ==> #[trigger] after.out_chain(v) == without(
                    self.out_chain(v),
                    t,
                ),
            forall|v: int|
                0 <= v < self.vertices@.len() ==> #[trigger] after.in_chain(v) == without(
                    self.in_chain(v),
                    t,
                ),
    {
        let o1 = out_links(self.arcs@);
        let o2 = out_links(after.arcs@);
        let i1 = in_links(self.arcs@);
        let i2 = in_links(after.arcs@);
        let gone = self.arcs@[t].unwrap();
        assert(link_ok(o1, t));
        assert(link_ok(i1, t));
        assert(self.arc_ok(t));
        assert forall|k: int| o2.dom().contains(k) implies o1.dom().contains(k) && k != t && o2[k]
            == redirect(o1[k], t, o1[t]) && i2[k] == redirect(i1[k], t, i1[t]) by {}
        assert forall|k: int| o1.dom().contains(k) && k != t implies o2.dom().contains(k) by {}
        assert forall|k: int| o2.dom().contains(k) implies #[trigger] link_ok(o2, k) by {
            assert(link_ok(o1, k));
        }
        assert forall|k: int| i2.dom().contains(k) implies #[trigger] link_ok(i2, k) by {
            assert(link_ok(i1, k));
        }
        assert forall|v: int| 0 <= v < self.vertices@.len() implies #[trigger] after.out_chain(v)
            == without(self.out_chain(v), t) by {
            let start = link_int(self.vertices@[v].first_out);
            assert(self.vertex_ok(v));
            lemma_walk_shape(o1, start);
            lemma_walk_unlink(o1, o2, start, t);
            assert(link_int(after.vertices@[v].first_out) == redirect(start, t, o1[t]));
        }
        assert forall|v: int| 0 <= v < self.vertices@.len() implies #[trigger] after.in_chain(v)
            == without(self.in_chain(v), t) by {
            let start = link_int(self.vertices@[v].first_in);
            assert(self.vertex_ok(v));
            lemma_walk_shape(i1, start);
            lemma_walk_unlink(i1, i2, start, t);
            assert(link_int(after.vertices@[v].first_in) == redirect(start, t, i1[t]));
        }
        assert forall|k: int| arc_live(after.arcs@, k) implies #[trigger] after.arc_ok(k) by {
            assert(self.arc_ok(k));
            assert(link_ok(o1, k));
            assert(link_ok(i1, k));
            let a = self.arcs@[k].unwrap();
            let b = after.arcs@[k].unwrap();
            assert(b.tail_vex == a.tail_vex && b.head_vex == a.head_vex);
            assert(after.out_chain(a.tail_vex as int) == without(
                self.out_chain(a.tail_vex as int),
                t,
            ));
            assert(after.in_chain(a.head_vex as int) == without(
                self.in_chain(a.head_vex as int),
                t,
            ));
            lemma_without_contains(self.out_chain(a.tail_vex as int), t, k);
            lemma_without_contains(self.in_chain(a.head_vex as int), t, k);
            if b.tail_link is Some {
                let m = b.tail_link.unwrap() as int;
                assert(o2[k] == Some(m));
            }
            if b.head_link is Some {
                let m = b.head_link.unwrap() as int;
                assert(i2[k] == Some(m));
            }
        }
        assert forall|v: int| 0 <= v < after.vertices@.len() implies #[trigger] after.vertex_ok(
            v,
        ) by {
            assert(self.vertex_ok(v));
        }
        lemma_live_arcs_bounded(self.arcs@);
        assert(live_arcs(after.arcs@) =~= live_arcs(self.arcs@).remove(t));
    }

    /// The slots met when the chains of leaving arcs of all vertices are walked.
    pub open spec fn reachable_arcs(&self) -> Set<int> {
        Set::new(
            |i: int|
                exists|v: int|
                    0 <= v < self.vertices@.len() && #[trigger] self.out_chain(v).contains(i),
        )
    }

    /// The counter equals the number of arcs met by walking every chain of
    /// leaving arcs, and the walks meet exactly the live arcs.
    pub proof fn lemma_edge_count_matches_chains(self)
        requires
            self.wf(),
        ensures
            self.reachable_arcs() == live_arcs(self.arcs@),
            self.edge_count == self.reachable_arcs().len(),
    {
        assert forall|i: int| self.reachable_arcs().contains(i) implies live_arcs(
            self.arcs@,
        ).contains(i) by {
            let v = choose|v: int|
                0 <= v < self.vertices@.len() && #[trigger] self.out_chain(v).contains(i);
            self.lemma_chain_members(v);
            let j = choose|j: int| 0 <= j < self.out_chain(v).len() && self.out_chain(v)[j] == i;
            assert(arc_live(self.arcs@, self.out_chain(v)[j]));
        }
        assert forall|i: int| live_arcs(self.arcs@).contains(i) implies self.reachable_arcs().contains(
            i,
        ) by {
            assert(self.arc_ok(i));
            let v = self.arcs@[i].unwrap().tail_vex as int;
            assert(self.out_chain(v).contains(i));
        }
        assert(self.reachable_arcs() =~= live_arcs(self.arcs@));
    }

    /// Once the only arc from `from` to `to` is removed, no arc from `from` to
    /// `to` is found any more.
    pub proof fn lemma_removed_edge_absent(self, after: Self, from: int, to: int)
        requires
            self.wf(),
            self.find_arc(from, to) is Some,
            after.arcs@ == unlink_arc(self.arcs@, self.find_arc(from, to).unwrap()),
            after.vertices@ == unhook_arc(
                self.vertices@,
                self.arcs@,
                self.find_arc(from, to).unwrap(),
            ),
            after.edge_count == self.edge_count - 1,
            forall|j: int|
                0 <= j < self.out_chain(from).len() && self.out_chain(from)[j] != self.find_arc(
                    from,
                    to,
                ).unwrap() ==> self.arcs@[#[trigger] self.out_chain(from)[j]].unwrap().head_vex
                    != to,
        ensures
            after.find_arc(from, to) is None,
            after.edge_weight(from, to) is None,
    {
        let t = self.find_arc(from, to).unwrap();
        let chain = self.out_chain(from);
        lemma_first_entering_member(self.arcs@, chain, to);
        self.lemma_chain_members(from);
        let jt = choose|j: int| 0 <= j < chain.len() && chain[j] == t;
        assert(arc_live(self.arcs@, chain[jt]));
        self.lemma_arc_unlinked(after, t);
        let rest = after.out_chain(from);
        assert(rest == without(chain, t));
        assert forall|j: int| 0 <= j < rest.len() implies after.arcs@[#[trigger] rest[j]].unwrap().head_vex
            != to by {
            lemma_without_contains(chain, t, rest[j]);
            assert(rest.contains(rest[j]));
            let k = choose|k: int| 0 <= k < chain.len() && chain[k] == rest[j];
            assert(arc_live(self.arcs@, chain[k]));
            assert(self.arcs@[chain[k]].unwrap().head_vex != to);
        }
        lemma_first_entering_none(after.arcs@, rest, to);
    }
}

} // verus!
