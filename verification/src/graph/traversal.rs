//! Neighbour enumeration, vertex visitors and breadth-first search.

use std::collections::VecDeque;
use vstd::prelude::*;
use vstd::set_lib::*;

verus! {

/// The first member of `s`, if it has one.
pub open spec fn first_of(s: Seq<usize>) -> Option<usize> {
    if s.len() > 0 {
        Some(s[0])
    } else {
        None
    }
}

/// The member of `s` that follows `x`, if `x` is a member and not the last one.
pub open spec fn next_after(s: Seq<usize>, x: usize) -> Option<usize> {
    if s.contains(x) && s.index_of(x) + 1 < s.len() {
        Some(s[s.index_of(x) + 1])
    } else {
        None
    }
}

/// A graph whose vertices' neighbours can be enumerated one by one.
pub trait GraphNeighbor {
    /// The graph is in a sound state. The enumeration is only promised then.
    spec fn neighbors_wf(&self) -> bool;

    /// The neighbours of `vertex`, in the order in which they are enumerated.
    spec fn neighbors(&self, vertex: usize) -> Seq<usize>;

    /// No vertex is enumerated twice among the neighbours of one vertex.
    proof fn lemma_neighbors_distinct(&self, vertex: usize)
        requires
            self.neighbors_wf(),
        ensures
            self.neighbors(vertex).no_duplicates(),
    ;

    /// The first neighbour of `vertex`, or `None` if it has none.
    fn first_neighbor(&self, vertex: usize) -> (neighbor: Option<usize>)
        requires
            self.neighbors_wf(),
        ensures
            neighbor == first_of(self.neighbors(vertex)),
    ;

    /// The neighbour of `vertex` enumerated after `current_neighbor`, or
    /// `None` if that was the last one.
    fn next_neighbor(&self, vertex: usize, current_neighbor: usize) -> (neighbor: Option<usize>)
        requires
            self.neighbors_wf(),
        ensures
            self.neighbors(vertex).contains(current_neighbor) ==> neighbor == next_after(
                self.neighbors(vertex),
                current_neighbor,
            ),
    ;
}

/// Something that is shown the vertices of a traversal one by one.
pub trait VertexVisitor {
    /// The vertices shown so far, oldest first.
    spec fn seen(&self) -> Seq<usize>;

    /// Shows `vertex` to the visitor.
    fn visit(&mut self, vertex: usize)
        ensures
            final(self).seen() == old(self).seen().push(vertex),
    ;
}

/// `path` leads from its first vertex to its last along edges of `graph`.
pub open spec fn is_path<G: GraphNeighbor>(graph: &G, path: Seq<usize>) -> bool {
    forall|k: int|
        0 <= k < path.len() - 1 ==> graph.neighbors(path[k]).contains(#[trigger] path[k + 1])
}

/// `to` can be reached from `from` along edges of `graph`; every vertex reaches itself.
pub open spec fn reachable<G: GraphNeighbor>(graph: &G, from: usize, to: usize) -> bool {
    exists|path: Seq<usize>|
        path.len() > 0 && path[0] == from && path.last() == to && #[trigger] is_path(graph, path)
}

/// `order`, followed by those of `candidates` that are not yet in it, each once, in their order.
pub open spec fn visit_new(order: Seq<usize>, candidates: Seq<usize>) -> Seq<usize>
    decreases candidates.len(),
{
    if candidates.len() == 0 {
        order
    } else {
        let before = visit_new(order, candidates.drop_last());
        if before.contains(candidates.last()) {
            before
        } else {
            before.push(candidates.last())
        }
    }
}

/// The visiting order that results when `order` has been visited and the
/// neighbours of its first `head` members have been looked at already: each
/// further member in turn contributes its neighbours not yet visited.
pub open spec fn bfs_from<G: GraphNeighbor>(
    graph: &G,
    order: Seq<usize>,
    head: nat,
    vertex_count: nat,
) -> Seq<usize>
    decreases vertex_count - head,
{
    if head >= order.len() || head >= vertex_count {
        order
    } else {
        bfs_from(
            graph,
            visit_new(order, graph.neighbors(order[head as int])),
            head + 1,
            vertex_count,
        )
    }
}

/// The order in which a breadth-first search from `start` visits the vertices.
pub open spec fn bfs_order<G: GraphNeighbor>(graph: &G, start: usize, vertex_count: nat) -> Seq<
    usize,
> {
    bfs_from(graph, seq![start], 0, vertex_count)
}

/// The member at position `k` of `order` is a neighbour of a member before it.
pub open spec fn discovered_from_earlier<G: GraphNeighbor>(
    graph: &G,
    order: Seq<usize>,
    k: int,
) -> bool {
    exists|m: int| 0 <= m < k && #[trigger] graph.neighbors(order[m]).contains(order[k])
}

/// A neighbour of a reachable vertex is reachable.
pub proof fn lemma_reachable_step<G: GraphNeighbor>(graph: &G, from: usize, via: usize, to: usize)
    requires
        reachable(graph, from, via),
        graph.neighbors(via).contains(to),
    ensures
        reachable(graph, from, to),
{
    let path = choose|path: Seq<usize>|
        path.len() > 0 && path[0] == from && path.last() == via && #[trigger] is_path(graph, path);
    let longer = path.push(to);
    assert forall|k: int| 0 <= k < longer.len() - 1 implies graph.neighbors(longer[k]).contains(
        #[trigger] longer[k + 1],
    ) by {
        if k < path.len() - 1 {
            assert(longer[k + 1] == path[k + 1]);
        }
    }
    assert(is_path(graph, longer));
}

/// Every vertex reaches itself.
pub proof fn lemma_reachable_self<G: GraphNeighbor>(graph: &G, v: usize)
    ensures
        reachable(graph, v, v),
{
    assert(is_path(graph, seq![v]));
}

/// If all the neighbours of the vertices below `vertex_count` are below
/// `vertex_count` too, so is everything reachable from a vertex below it.
pub proof fn lemma_reachable_bounded<G: GraphNeighbor>(
    graph: &G,
    start: usize,
    vertex_count: usize,
)
    requires
        start < vertex_count,
        forall|v: usize, k: int|
            v < vertex_count && 0 <= k < graph.neighbors(v).len() ==> #[trigger] graph.neighbors(
                v,
            )[k] < vertex_count,
    ensures
        forall|v: usize| reachable(graph, start, v) ==> v < vertex_count,
{
    assert forall|v: usize| reachable(graph, start, v) implies v < vertex_count by {
        let path = choose|path: Seq<usize>|
            path.len() > 0 && path[0] == start && path.last() == v && #[trigger] is_path(
                graph,
                path,
            );
        lemma_path_bounded(graph, path, vertex_count, path.len() - 1);
    }
}

proof fn lemma_path_bounded<G: GraphNeighbor>(
    graph: &G,
    path: Seq<usize>,
    vertex_count: usize,
    upto: int,
)
    requires
        path.len() > 0,
        path[0] < vertex_count,
        is_path(graph, path),
        0 <= upto < path.len(),
        forall|v: usize, k: int|
            v < vertex_count && 0 <= k < graph.neighbors(v).len() ==> #[trigger] graph.neighbors(
                v,
            )[k] < vertex_count,
    ensures
        path[upto] < vertex_count,
    decreases upto,
{
    if upto > 0 {
        lemma_path_bounded(graph, path, vertex_count, upto - 1);
        assert(graph.neighbors(path[upto - 1]).contains(path[upto - 1 + 1]));
    }
}

/// A sequence of different numbers below `bound` has at most `bound` members.
pub proof fn lemma_distinct_bounded(s: Seq<usize>, bound: nat)
    requires
        s.no_duplicates(),
        forall|k: int| 0 <= k < s.len() ==> s[k] < bound,
    ensures
        s.len() <= bound,
{
    let ints = s.map_values(|x: usize| x as int);
    assert(ints.no_duplicates());
    ints.unique_seq_to_set();
    lemma_int_range(0, bound as int);
    assert(ints.to_set().subset_of(set_int_range(0, bound as int))) by {
        assert forall|x: int| ints.to_set().contains(x) implies set_int_range(
            0,
            bound as int,
        ).contains(x) by {
            let k = choose|k: int| 0 <= k < ints.len() && ints[k] == x;
            assert(s[k] < bound);
        }
    }
    lemma_len_subset(ints.to_set(), set_int_range(0, bound as int));
}

/// What `visit_new` keeps: the old members stay in place, nothing is
/// repeated, and every new member is one of the candidates.
pub proof fn lemma_visit_new_shape(order: Seq<usize>, candidates: Seq<usize>)
    requires
        order.no_duplicates(),
    ensures
        visit_new(order, candidates).no_duplicates(),
        order.len() <= visit_new(order, candidates).len(),
        visit_new(order, candidates).subrange(0, order.len() as int) == order,
        forall|k: int|
            order.len() <= k < visit_new(order, candidates).len() ==> candidates.contains(
                #[trigger] visit_new(order, candidates)[k],
            ),
        forall|k: int|
            0 <= k < candidates.len() ==> visit_new(order, candidates).contains(
                #[trigger] candidates[k],
            ),
    decreases candidates.len(),
{
    let result = visit_new(order, candidates);
    if candidates.len() == 0 {
        assert(result.subrange(0, order.len() as int) =~= order);
    } else {
        let fewer = candidates.drop_last();
        let before = visit_new(order, fewer);
        lemma_visit_new_shape(order, fewer);
        assert(result.subrange(0, order.len() as int) =~= before.subrange(0, order.len() as int));
        assert forall|k: int| order.len() <= k < result.len() implies candidates.contains(
            #[trigger] result[k],
        ) by {
            if k < before.len() {
                assert(fewer.contains(before[k]));
                let x = choose|x: int| 0 <= x < fewer.len() && fewer[x] == before[k];
                assert(candidates[x] == before[k]);
            } else {
                assert(candidates[candidates.len() - 1] == result[k]);
            }
        }
        assert forall|k: int| 0 <= k < candidates.len() implies result.contains(
            #[trigger] candidates[k],
        ) by {
            if k < fewer.len() {
                assert(fewer[k] == candidates[k]);
                assert(before.contains(fewer[k]));
                let x = choose|x: int| 0 <= x < before.len() && before[x] == fewer[k];
                assert(result[x] == candidates[k]);
            } else if before.contains(candidates.last()) {
            } else {
                assert(result[result.len() - 1] == candidates[k]);
            }
        }
    }
}

/// A breadth-first search from a vertex without neighbours visits that vertex only.
pub proof fn lemma_bfs_isolated<G: GraphNeighbor>(graph: &G, start: usize, vertex_count: nat)
    requires
        graph.neighbors(start).len() == 0,
    ensures
        bfs_order(graph, start, vertex_count) == seq![start],
{
    let order = seq![start];
    if 0 < vertex_count {
        assert(visit_new(order, graph.neighbors(start)) == order);
        assert(bfs_from(graph, order, 1, vertex_count) == order);
        assert(bfs_from(graph, order, 0, vertex_count) == bfs_from(
            graph,
            visit_new(order, graph.neighbors(order[0])),
            1,
            vertex_count,
        ));
    }
}

/// A visitor that records the vertices in the order shown.
#[derive(Debug)]
pub struct CollectVisitor {
    /// The vertices shown so far, oldest first.
    pub order: Vec<usize>,
}

impl Default for CollectVisitor {
    fn default() -> (visitor: Self)
        ensures
            visitor.order@.len() == 0,
    {
        CollectVisitor { order: Vec::new() }
    }
}

impl VertexVisitor for CollectVisitor {
    open spec fn seen(&self) -> Seq<usize> {
        self.order@
    }

    fn visit(&mut self, vertex: usize) {
        self.order.push(vertex);
    }
}

/// Breadth-first search from `start`: shows `visitor` the start and then,
/// for each vertex shown in turn, those of its neighbours that were not shown
/// before, in the order in which `graph` enumerates them. Every vertex that
/// can be reached from `start` is shown, once, and no other.
///
/// `vertex_count` must exceed every vertex that can be reached from `start`.
pub fn breadth_first_search<G, V>(graph: &G, start: usize, visitor: &mut V, vertex_count: usize) where
    G: GraphNeighbor,
    V: VertexVisitor,

    requires
        graph.neighbors_wf(),
        forall|v: usize| reachable(graph, start, v) ==> v < vertex_count,
    ensures
        final(visitor).seen() == old(visitor).seen() + bfs_order(
            graph,
            start,
            vertex_count as nat,
        ),
        bfs_order(graph, start, vertex_count as nat).no_duplicates(),
        bfs_order(graph, start, vertex_count as nat).len() > 0,
        bfs_order(graph, start, vertex_count as nat)[0] == start,
        forall|k: int|
            0 <= k < bfs_order(graph, start, vertex_count as nat).len() ==> reachable(
                graph,
                start,
                #[trigger] bfs_order(graph, start, vertex_count as nat)[k],
            ),
        forall|v: usize|
            reachable(graph, start, v) ==> bfs_order(graph, start, vertex_count as nat).contains(v),
        forall|k: int|
            0 < k < bfs_order(graph, start, vertex_count as nat).len() ==> discovered_from_earlier(
                graph,
                bfs_order(graph, start, vertex_count as nat),
                k,
            ),
{
    proof {
        lemma_reachable_self(graph, start);
    }
    let mut visited = vec![false; vertex_count];
    let mut queue: VecDeque<usize> = VecDeque::new();

    visited[start] = true;
    visitor.visit(start);
    queue.push_back(start);

    let ghost mut order: Seq<usize> = seq![start];
    let ghost mut head: nat = 0;
    proof {
        assert(old(visitor).seen().push(start) =~= old(visitor).seen() + order);
        assert(queue@ =~= order.subrange(0, 1));
        assert(order[0] == start);
        assert forall|v: int| 0 <= v < vertex_count implies (visited@[v] <==> order.contains(
            v as usize,
        )) by {
            if order.contains(v as usize) {
                let x = choose|x: int| 0 <= x < order.len() && order[x] == v as usize;
            }
        }
    }

    while queue.len() > 0
        invariant
            graph.neighbors_wf(),
            forall|v: usize| reachable(graph, start, v) ==> v < vertex_count,
            visitor.seen() == old(visitor).seen() + order,
            head <= order.len(),
            order.len() > 0,
            order[0] == start,
            queue@ == order.subrange(head as int, order.len() as int),
            visited@.len() == vertex_count,
            forall|v: int| 0 <= v < vertex_count ==> (visited@[v] <==> order.contains(v as usize)),
            order.no_duplicates(),
            forall|k: int| 0 <= k < order.len() ==> reachable(graph, start, #[trigger] order[k]),
            forall|k: int| 0 < k < order.len() ==> discovered_from_earlier(graph, order, k),
            forall|k: int, x: int|
                0 <= k < head && 0 <= x < graph.neighbors(order[k]).len() ==> order.contains(
                    #[trigger] graph.neighbors(order[k])[x],
                ),
            bfs_from(graph, order, head, vertex_count as nat) == bfs_order(
                graph,
                start,
                vertex_count as nat,
            ),
        decreases vertex_count - head,
    {
        let current = queue.pop_front().unwrap();
        let ghost order0 = order;
        let ghost nbrs = graph.neighbors(current);
        let ghost mut k: int = 0;
        proof {
            assert(current == order[head as int]);
            lemma_distinct_bounded(order, vertex_count as nat);
            graph.lemma_neighbors_distinct(current);
            assert(nbrs.take(0) =~= Seq::empty());
            assert(queue@ =~= order.subrange(head as int + 1, order.len() as int));
        }
        let mut neighbor = graph.first_neighbor(current);
        while neighbor.is_some()
            invariant
                graph.neighbors_wf(),
                forall|v: usize| reachable(graph, start, v) ==> v < vertex_count,
                nbrs == graph.neighbors(current),
                nbrs.no_duplicates(),
                reachable(graph, start, current),
                0 <= k <= nbrs.len(),
                neighbor == if k < nbrs.len() {
                    Some(nbrs[k])
                } else {
                    None
                },
                order == visit_new(order0, nbrs.take(k)),
                order0.no_duplicates(),
                order0.len() <= order.len(),
                head < order0.len(),
                order.subrange(0, order0.len() as int) == order0,
                visitor.seen() == old(visitor).seen() + order,
                queue@ == order.subrange(head as int + 1, order.len() as int),
                visited@.len() == vertex_count,
                forall|v: int|
                    0 <= v < vertex_count ==> (visited@[v] <==> order.contains(v as usize)),
                order.no_duplicates(),
                forall|j: int|
                    0 <= j < order.len() ==> reachable(graph, start, #[trigger] order[j]),
                forall|j: int| 0 < j < order.len() ==> discovered_from_earlier(graph, order, j),
                order[head as int] == current,
            decreases nbrs.len() - k,
        {
            let next = neighbor.unwrap();
            proof {
                assert(nbrs.contains(next));
                lemma_reachable_step(graph, start, current, next);
                assert(nbrs.take(k + 1).drop_last() =~= nbrs.take(k));
                assert(nbrs.take(k + 1).last() == next);
            }
            if !visited[next] {
                visited[next] = true;
                visitor.visit(next);
                queue.push_back(next);
                proof {
                    let grown = order.push(next);
                    assert(old(visitor).seen() + grown =~= (old(visitor).seen() + order).push(
                        next,
                    ));
                    assert(grown.subrange(head as int + 1, grown.len() as int) =~= order.subrange(
                        head as int + 1,
                        order.len() as int,
                    ).push(next));
                    assert(grown.subrange(0, order0.len() as int) =~= order.subrange(
                        0,
                        order0.len() as int,
                    ));
                    assert forall|v: int| 0 <= v < vertex_count implies (visited@[v]
                        <==> grown.contains(v as usize)) by {
                        if v == next {
                            assert(grown[grown.len() - 1] == next);
                        } else if order.contains(v as usize) {
                            let x = choose|x: int| 0 <= x < order.len() && order[x] == v as usize;
                            assert(grown[x] == v as usize);
                        } else if grown.contains(v as usize) {
                            let x = choose|x: int| 0 <= x < grown.len() && grown[x] == v as usize;
                            assert(order[x] == v as usize);
                        }
                    }
                    assert forall|j: int| 0 < j < grown.len() implies discovered_from_earlier(
                        graph,
                        grown,
                        j,
                    ) by {
                        if j < order.len() {
                            assert(discovered_from_earlier(graph, order, j));
                            let m = choose|m: int|
                                0 <= m < j && #[trigger] graph.neighbors(order[m]).contains(
                                    order[j],
                                );
                            assert(graph.neighbors(grown[m]).contains(grown[j]));
                        } else {
                            assert(graph.neighbors(grown[head as int]).contains(grown[j]));
                        }
                    }
                    assert(grown[head as int] == current);
                    assert(grown.no_duplicates()) by {
                        assert forall|a: int, b: int|
                            0 <= a < grown.len() && 0 <= b < grown.len() && a != b implies grown[a]
                            != grown[b] by {
                            if a == order.len() {
                                assert(order[b] == grown[b]);
                            } else if b == order.len() {
                                assert(order[a] == grown[a]);
                            }
                        }
                    }
                    order = grown;
                }
            }
            neighbor = graph.next_neighbor(current, next);
            proof {
                assert(nbrs.index_of(next) == k);
                k = k + 1;
            }
        }
        proof {
            assert(nbrs.take(k) =~= nbrs);
            lemma_visit_new_shape(order0, nbrs);
            assert(order0[head as int] == current);
            assert forall|a: int, x: int|
                0 <= a < head + 1 && 0 <= x < graph.neighbors(order[a]).len() implies order.contains(
                #[trigger] graph.neighbors(order[a])[x],
            ) by {
                assert(order[a] == order0[a]) by {
                    assert(order.subrange(0, order0.len() as int)[a] == order[a]);
                }
                if a < head {
                    let y = graph.neighbors(order0[a])[x];
                    assert(order0.contains(y));
                    let z = choose|z: int| 0 <= z < order0.len() && order0[z] == y;
                    assert(order.subrange(0, order0.len() as int)[z] == order[z]);
                }
            }
            assert(order[0] == order0[0]) by {
                assert(order.subrange(0, order0.len() as int)[0] == order[0]);
            }
            head = head + 1;
        }
    }
    proof {
        assert(head == order.len());
        let n = vertex_count as nat;
        assert(bfs_from(graph, order, head, n) == order);
        assert forall|v: usize| reachable(graph, start, v) implies order.contains(v) by {
            let path = choose|path: Seq<usize>|
                path.len() > 0 && path[0] == start && path.last() == v && #[trigger] is_path(
                    graph,
                    path,
                );
            lemma_closed_holds_path(graph, order, path, path.len() - 1);
        }
    }
}

/// A set of vertices that holds the first vertex of a path and, with each of
/// its members, all the neighbours of that member holds the whole path.
proof fn lemma_closed_holds_path<G: GraphNeighbor>(
    graph: &G,
    order: Seq<usize>,
    path: Seq<usize>,
    upto: int,
)
    requires
        path.len() > 0,
        order.contains(path[0]),
        is_path(graph, path),
        0 <= upto < path.len(),
        forall|k: int, x: int|
            0 <= k < order.len() && 0 <= x < graph.neighbors(order[k]).len() ==> order.contains(
                #[trigger] graph.neighbors(order[k])[x],
            ),
    ensures
        order.contains(path[upto]),
    decreases upto,
{
    if upto > 0 {
        lemma_closed_holds_path(graph, order, path, upto - 1);
        let u = path[upto - 1];
        let k = choose|k: int| 0 <= k < order.len() && order[k] == u;
        assert(graph.neighbors(u).contains(path[upto - 1 + 1]));
        let x = choose|x: int| 0 <= x < graph.neighbors(u).len() && graph.neighbors(u)[x] == path[upto];
        assert(order.contains(graph.neighbors(order[k])[x]));
    }
}

} // verus!
