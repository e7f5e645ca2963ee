//! Disjoint sets over `0..n` as a forest in one vector: an element's entry
//! is its parent, a root's entry is the negated size of its set.

use vstd::prelude::*;

verus! {

/// `isize::abs`: the absolute value. `isize::MIN` has none that fits and is left out.
pub assume_specification[ isize::abs ](x: isize) -> (r: isize)
    requires
        x != isize::MIN,
    ensures
        r == if x < 0 {
            -x
        } else {
            x as int
        },
;

/// The sizes recorded at the roots among the first `upto` entries, added up.
pub open spec fn recorded_size(entries: Seq<isize>, upto: int) -> int
    decreases upto,
{
    if upto <= 0 {
        0
    } else {
        recorded_size(entries, upto - 1) + if entries[upto - 1] < 0 {
            -entries[upto - 1]
        } else {
            0
        }
    }
}

/// Changing one entry changes the sum by what that entry's share changes.
proof fn lemma_recorded_size_update(entries: Seq<isize>, at: int, value: isize, upto: int)
    requires
        0 <= at < entries.len(),
        0 <= upto <= entries.len(),
    ensures
        recorded_size(entries.update(at, value), upto) == recorded_size(entries, upto) + if at
            < upto {
            (if value < 0 {
                -value
            } else {
                0
            }) - (if entries[at] < 0 {
                -entries[at]
            } else {
                0
            })
        } else {
            0
        },
    decreases upto,
{
    if upto > 0 {
        lemma_recorded_size_update(entries, at, value, upto - 1);
    }
}

/// Two different roots record no more than the whole sum between them.
proof fn lemma_recorded_size_two(entries: Seq<isize>, a: int, b: int, upto: int)
    requires
        0 <= a < upto,
        0 <= b < upto,
        a != b,
        upto <= entries.len(),
        entries[a] < 0,
        entries[b] < 0,
    ensures
        -entries[a] + -entries[b] <= recorded_size(entries, upto),
    decreases upto,
{
    lemma_recorded_size_nonnegative(entries, upto - 1);
    if a == upto - 1 {
        lemma_recorded_size_one(entries, b, upto - 1);
    } else if b == upto - 1 {
        lemma_recorded_size_one(entries, a, upto - 1);
    } else {
        lemma_recorded_size_two(entries, a, b, upto - 1);
    }
}

proof fn lemma_recorded_size_one(entries: Seq<isize>, a: int, upto: int)
    requires
        0 <= a < upto <= entries.len(),
        entries[a] < 0,
    ensures
        -entries[a] <= recorded_size(entries, upto),
    decreases upto,
{
    lemma_recorded_size_nonnegative(entries, upto - 1);
    if a < upto - 1 {
        lemma_recorded_size_one(entries, a, upto - 1);
    }
}

proof fn lemma_recorded_size_nonnegative(entries: Seq<isize>, upto: int)
    ensures
        recorded_size(entries, upto) >= 0,
    decreases upto,
{
    if upto > 0 {
        lemma_recorded_size_nonnegative(entries, upto - 1);
    }
}

proof fn lemma_recorded_size_fresh(entries: Seq<isize>, upto: int)
    requires
        0 <= upto <= entries.len(),
        forall|i: int| 0 <= i < entries.len() ==> entries[i] == -1,
    ensures
        recorded_size(entries, upto) == upto,
    decreases upto,
{
    if upto > 0 {
        lemma_recorded_size_fresh(entries, upto - 1);
    }
}

/// A partition of `0..n` into disjoint sets, each named by one of its
/// members, its root.
pub struct UnionFind(Vec<isize>, Ghost<Seq<nat>>, Ghost<nat>);

impl UnionFind {
    /// The number of elements.
    pub closed spec fn spec_len(&self) -> nat {
        self.0@.len()
    }

    /// Element `i` names its own set.
    pub closed spec fn is_root(&self, i: int) -> bool {
        self.0@[i] < 0
    }

    /// The element that `i` is linked to, for an `i` that is no root.
    pub closed spec fn parent(&self, i: int) -> int {
        self.0@[i] as int
    }

    /// The size recorded for the set of the root `root`.
    pub closed spec fn set_size(&self, root: int) -> int {
        -self.0@[root]
    }

    /// Every link leads to an element of higher rank, so the links form a
    /// forest; and the sizes recorded at the roots add up to the number of elements.
    pub closed spec fn wf(&self) -> bool {
        &&& self.0@.len() <= isize::MAX
        &&& self.1@.len() == self.0@.len()
        &&& forall|i: int| 0 <= i < self.0@.len() ==> (#[trigger] self.1@[i]) <= self.2@
        &&& forall|i: int|
            0 <= i < self.0@.len() ==> (#[trigger] self.0@[i]) < self.0@.len() && (self.0@[i] >= 0
                ==> self.1@[self.0@[i] as int] > self.1@[i])
        &&& recorded_size(self.0@, self.0@.len() as int) == self.0@.len()
    }

    /// How far the rank of `i` is below the bound on all ranks.
    pub closed spec fn headroom(&self, i: int) -> int {
        self.2@ - self.1@[i]
    }

    /// The root of the set that holds `i`.
    pub closed spec fn root_of(&self, i: int) -> int
        decreases self.headroom(i),
    {
        if self.wf() && 0 <= i < self.0@.len() && self.0@[i] >= 0 {
            self.root_of(self.0@[i] as int)
        } else {
            i
        }
    }

    /// `i` lies on the way from `from` to the root of its set, ends included.
    pub closed spec fn on_way(&self, from: int, i: int) -> bool
        decreases self.headroom(from),
    {
        from == i || (self.wf() && 0 <= from < self.0@.len() && self.0@[from] >= 0 && self.on_way(
            self.0@[from] as int,
            i,
        ))
    }

    /// The way from an element leads through the element itself, and then
    /// along the way from its parent; the way from a root is the root alone.
    pub proof fn lemma_on_way(&self, from: int, i: int)
        requires
            self.wf(),
            0 <= from < self.spec_len(),
        ensures
            self.on_way(from, from),
            self.on_way(from, self.root_of(from)),
            self.is_root(from) ==> (self.on_way(from, i) <==> i == from),
            !self.is_root(from) ==> (self.on_way(from, i) <==> i == from || self.on_way(
                self.parent(from),
                i,
            )),
            self.on_way(from, i) ==> 0 <= i < self.spec_len() && self.root_of(i) == self.root_of(
                from,
            ),
        decreases self.headroom(from),
    {
        if self.0@[from] >= 0 {
            self.lemma_on_way(self.0@[from] as int, i);
            self.lemma_on_way(self.0@[from] as int, self.root_of(from));
        }
    }

    /// What lies on the way from a member of a way lies on that way.
    proof fn lemma_on_way_transitive(&self, from: int, via: int, i: int)
        requires
            self.wf(),
            0 <= from < self.0@.len(),
            self.on_way(from, via),
            0 <= via < self.0@.len(),
            self.on_way(via, i),
        ensures
            self.on_way(from, i),
        decreases self.headroom(from),
    {
        if from != via {
            self.lemma_on_way_transitive(self.0@[from] as int, via, i);
        }
    }

    /// The way from an element never comes back to an element of lower rank.
    proof fn lemma_on_way_rank(&self, from: int, i: int)
        requires
            self.wf(),
            0 <= from < self.0@.len(),
            self.on_way(from, i),
        ensures
            0 <= i < self.0@.len(),
            self.1@[i] >= self.1@[from],
        decreases self.headroom(from),
    {
        if from != i {
            self.lemma_on_way_rank(self.0@[from] as int, i);
        }
    }

    /// The root of a set is an element, it is a root, and it is its own root;
    /// an element that is no root has the root of its parent.
    pub proof fn lemma_root_of(&self, i: int)
        requires
            self.wf(),
            0 <= i < self.spec_len(),
        ensures
            0 <= self.root_of(i) < self.spec_len(),
            self.is_root(self.root_of(i)),
            self.root_of(self.root_of(i)) == self.root_of(i),
            self.is_root(i) <==> self.root_of(i) == i,
            !self.is_root(i) ==> 0 <= self.parent(i) < self.spec_len() && self.root_of(i)
                == self.root_of(self.parent(i)),
            self.set_size(self.root_of(i)) >= 1,
        decreases self.headroom(i),
    {
        if self.0@[i] >= 0 {
            self.lemma_root_of(self.0@[i] as int);
            self.lemma_root_rank(i);
        }
    }

    /// The root of an element that is no root has a higher rank than the element.
    proof fn lemma_root_rank(&self, i: int)
        requires
            self.wf(),
            0 <= i < self.0@.len(),
        ensures
            self.0@[i] >= 0 ==> self.1@[self.root_of(i)] > self.1@[i],
            0 <= self.root_of(i) < self.0@.len(),
        decreases self.2@ - self.1@[i],
    {
        if self.0@[i] >= 0 {
            self.lemma_root_rank(self.0@[i] as int);
        }
    }

    /// Linking an element that is no root straight to its root keeps every
    /// element in its set.
    proof fn lemma_compressed(&self, after: &Self, x: int)
        requires
            self.wf(),
            0 <= x < self.0@.len(),
            self.0@[x] >= 0,
            after.0@ == self.0@.update(x, self.root_of(x) as isize),
            after.1@ == self.1@,
            after.2@ == self.2@,
        ensures
            after.wf(),
            forall|i: int| 0 <= i < self.0@.len() ==> after.root_of(i) == self.root_of(i),
    {
        self.lemma_root_rank(x);
        let root = self.root_of(x);
        lemma_recorded_size_update(self.0@, x, root as isize, self.0@.len() as int);
        assert(after.wf());
        assert forall|i: int| 0 <= i < self.0@.len() implies after.root_of(i) == self.root_of(
            i,
        ) by {
            self.lemma_compressed_at(after, x, i);
        }
    }

    proof fn lemma_compressed_at(&self, after: &Self, x: int, i: int)
        requires
            self.wf(),
            after.wf(),
            0 <= x < self.0@.len(),
            self.0@[x] >= 0,
            after.0@ == self.0@.update(x, self.root_of(x) as isize),
            after.1@ == self.1@,
            after.2@ == self.2@,
            0 <= i < self.0@.len(),
        ensures
            after.root_of(i) == self.root_of(i),
        decreases self.2@ - self.1@[i],
    {
        self.lemma_root_rank(x);
        if i == x {
            let root = self.root_of(x);
            self.lemma_root_of(x);
            self.lemma_compressed_at(after, x, root);
        } else if self.0@[i] >= 0 {
            self.lemma_compressed_at(after, x, self.0@[i] as int);
        }
    }

    /// Linking the root `loser` to the root `winner` moves the set of `loser`
    /// into that of `winner` and leaves every other element in its set.
    proof fn lemma_linked(&self, after: &Self, winner: int, loser: int)
        requires
            self.wf(),
            0 <= winner < self.0@.len(),
            0 <= loser < self.0@.len(),
            winner != loser,
            self.0@[winner] < 0,
            self.0@[loser] < 0,
            after.0@ == self.0@.update(
                winner,
                (self.0@[winner] + self.0@[loser]) as isize,
            ).update(loser, winner as isize),
            after.1@ == self.1@.update(winner, self.1@[winner] + self.1@[loser] + 1),
            after.2@ == self.2@ + self.2@ + 1,
        ensures
            after.wf(),
            forall|i: int|
                0 <= i < self.0@.len() ==> after.root_of(i) == if self.root_of(i) == loser {
                    winner
                } else {
                    self.root_of(i)
                },
    {
        let n = self.0@.len() as int;
        lemma_recorded_size_two(self.0@, winner, loser, n);
        let sum = (self.0@[winner] + self.0@[loser]) as isize;
        let step = self.0@.update(winner, sum);
        lemma_recorded_size_update(self.0@, winner, sum, n);
        lemma_recorded_size_update(step, loser, winner as isize, n);
        assert(after.wf());
        assert forall|i: int| 0 <= i < self.0@.len() implies after.root_of(i) == if self.root_of(
            i,
        ) == loser {
            winner
        } else {
            self.root_of(i)
        } by {
            self.lemma_linked_at(after, winner, loser, i);
        }
    }

    proof fn lemma_linked_at(&self, after: &Self, winner: int, loser: int, i: int)
        requires
            self.wf(),
            after.wf(),
            0 <= winner < self.0@.len(),
            0 <= loser < self.0@.len(),
            winner != loser,
            self.0@[winner] < 0,
            self.0@[loser] < 0,
            after.0@ == self.0@.update(
                winner,
                (self.0@[winner] + self.0@[loser]) as isize,
            ).update(loser, winner as isize),
            0 <= i < self.0@.len(),
        ensures
            after.root_of(i) == if self.root_of(i) == loser {
                winner
            } else {
                self.root_of(i)
            },
        decreases self.2@ - self.1@[i],
    {
        lemma_recorded_size_two(self.0@, winner, loser, self.0@.len() as int);
        if i == loser {
            assert(after.root_of(winner) == winner);
        } else if i == winner {
        } else if self.0@[i] >= 0 {
            self.lemma_linked_at(after, winner, loser, self.0@[i] as int);
        }
    }

    /// `mid` is `self` after a search from `x`: the elements on the way from
    /// `x` are linked to the root, and nothing else differs in the links.
    spec fn searched(&self, mid: &Self, x: int) -> bool {
        &&& mid.wf()
        &&& mid.0@.len() == self.0@.len()
        &&& forall|i: int| 0 <= i < self.0@.len() ==> mid.root_of(i) == self.root_of(i)
        &&& forall|i: int|
            0 <= i < self.0@.len() ==> #[trigger] mid.0@[i] as int == if self.0@[i] >= 0
                && self.on_way(x, i) {
                self.root_of(x)
            } else {
                self.0@[i] as int
            }
    }

    /// What `find` promises of the state it leaves amounts to `searched`.
    proof fn lemma_found(&self, mid: &Self, x: int)
        requires
            self.wf(),
            mid.wf(),
            0 <= x < self.0@.len(),
            mid.spec_len() == self.spec_len(),
            forall|i: int| 0 <= i < self.spec_len() ==> mid.root_of(i) == self.root_of(i),
            forall|i: int| 0 <= i < self.spec_len() ==> mid.is_root(i) == self.is_root(i),
            forall|i: int|
                0 <= i < self.spec_len() && self.is_root(i) ==> mid.set_size(i) == self.set_size(
                    i,
                ),
            forall|i: int|
                0 <= i < self.spec_len() && !self.is_root(i) ==> mid.parent(i) == if self.on_way(
                    x,
                    i,
                ) {
                    self.root_of(x)
                } else {
                    self.parent(i)
                },
        ensures
            self.searched(mid, x),
    {
        self.lemma_root_of(x);
        assert forall|i: int| 0 <= i < self.0@.len() implies #[trigger] mid.0@[i] as int
            == if self.0@[i] >= 0 && self.on_way(x, i) {
            self.root_of(x)
        } else {
            self.0@[i] as int
        } by {
            assert(mid.is_root(i) == self.is_root(i));
            if self.is_root(i) {
                assert(mid.set_size(i) == self.set_size(i));
            } else {
                assert(mid.parent(i) == if self.on_way(x, i) {
                    self.root_of(x)
                } else {
                    self.parent(i)
                });
            }
        }
    }

    /// After a search from `x`, what lies on the way from `y` and is no root
    /// lay on the way from `y` before.
    proof fn lemma_way_after_search(&self, mid: &Self, x: int, y: int, i: int)
        requires
            self.wf(),
            0 <= x < self.0@.len(),
            0 <= y < self.0@.len(),
            self.searched(mid, x),
            mid.on_way(y, i),
            0 <= i < self.0@.len(),
            self.0@[i] >= 0,
        ensures
            self.on_way(y, i),
        decreases mid.headroom(y),
    {
        self.lemma_root_of(x);
        if y != i {
            assert(mid.0@[y] >= 0 && mid.on_way(mid.0@[y] as int, i));
            if self.on_way(x, y) {
                let root = self.root_of(x);
                assert(mid.0@[y] as int == root);
                assert(mid.0@[root] as int == self.0@[root]);
                mid.lemma_on_way(root, i);
            } else {
                assert(mid.0@[y] == self.0@[y]);
                self.lemma_way_after_search(mid, x, self.0@[y] as int, i);
            }
        }
    }

    /// What lay on the way from `y`, but not on the way from `x`, before a
    /// search from `x` lies on the way from `y` after it.
    proof fn lemma_way_before_search(&self, mid: &Self, x: int, y: int, i: int)
        requires
            self.wf(),
            0 <= x < self.0@.len(),
            0 <= y < self.0@.len(),
            self.searched(mid, x),
            self.on_way(y, i),
            !self.on_way(x, i),
        ensures
            mid.on_way(y, i),
        decreases self.headroom(y),
    {
        if y != i {
            let next = self.0@[y] as int;
            if self.on_way(x, y) {
                self.lemma_on_way(y, i);
                self.lemma_on_way_transitive(x, y, i);
            } else {
                self.lemma_way_before_search(mid, x, next, i);
            }
        }
    }

    /// After a search from `x` and one from `y`, the elements on the two ways
    /// are linked to their roots, and no other link differs.
    proof fn lemma_searched_twice(&self, mid: &Self, last: &Self, x: int, y: int)
        requires
            self.wf(),
            0 <= x < self.0@.len(),
            0 <= y < self.0@.len(),
            self.searched(mid, x),
            mid.searched(last, y),
        ensures
            forall|i: int|
                0 <= i < self.0@.len() ==> #[trigger] last.0@[i] as int == if self.0@[i] >= 0 && (
                self.on_way(x, i) || self.on_way(y, i)) {
                    self.root_of(i)
                } else {
                    self.0@[i] as int
                },
    {
        assert forall|i: int| 0 <= i < self.0@.len() implies #[trigger] last.0@[i] as int
            == if self.0@[i] >= 0 && (self.on_way(x, i) || self.on_way(y, i)) {
            self.root_of(i)
        } else {
            self.0@[i] as int
        } by {
            self.lemma_on_way(x, i);
            self.lemma_on_way(y, i);
            mid.lemma_on_way(y, i);
            self.lemma_root_of(i);
            if self.0@[i] >= 0 {
                if mid.on_way(y, i) {
                    self.lemma_way_after_search(mid, x, y, i);
                } else if self.on_way(y, i) && !self.on_way(x, i) {
                    self.lemma_way_before_search(mid, x, y, i);
                }
            }
        }
    }

    /// `size` elements, each alone in its set.
    pub fn new(size: usize) -> (sets: Self)
        requires
            size <= isize::MAX,
        ensures
            sets.wf(),
            sets.spec_len() == size,
            forall|i: int| 0 <= i < size ==> sets.root_of(i) == i && sets.set_size(i) == 1,
    {
        let sets = Self(vec![-1; size], Ghost(Seq::new(size as nat, |i: int| 0nat)), Ghost(0nat));
        proof {
            lemma_recorded_size_fresh(sets.0@, size as int);
        }
        sets
    }

    /// The root of the set that holds `x`. On the way, the elements between
    /// `x` and the root are linked straight to the root.
    pub fn find(&mut self, x: isize) -> (found: Result<isize, &'static str>)
        requires
            old(self).wf(),
        ensures
            final(self).wf(),
            final(self).spec_len() == old(self).spec_len(),
            forall|i: int|
                0 <= i < old(self).spec_len() ==> final(self).root_of(i) == old(self).root_of(i),
            forall|i: int|
                0 <= i < old(self).spec_len() ==> final(self).is_root(i) == old(self).is_root(i),
            forall|i: int|
                0 <= i < old(self).spec_len() && old(self).is_root(i) ==> final(self).set_size(i)
                    == old(self).set_size(i),
            found is Err <==> !(0 <= x < old(self).spec_len()),
            found matches Err(e) ==> e@ == "index out of bounds"@ && *final(self) == *old(self),
            found matches Ok(root) ==> root == old(self).root_of(x as int) && forall|i: int|
                0 <= i < old(self).spec_len() && !old(self).is_root(i) ==> final(self).parent(i)
                    == if old(self).on_way(x as int, i) {
                    root as int
                } else {
                    old(self).parent(i)
                },
    {
        if x < 0 || x >= self.0.len() as isize {
            return Err("index out of bounds");
        }
        let mut root = x;
        while self.0[root as usize] >= 0
            invariant
                *self == *old(self),
                self.wf(),
                0 <= root < self.0@.len(),
                self.root_of(root as int) == self.root_of(x as int),
            decreases self.2@ - self.1@[root as int],
        {
            root = self.0[root as usize];
        }
        let mut cur = x;
        while cur != root
            invariant
                self.wf(),
                self.0@.len() == old(self).0@.len(),
                0 <= root < self.0@.len(),
                0 <= cur < self.0@.len(),
                0 <= x < self.0@.len(),
                root == old(self).root_of(x as int),
                self.root_of(cur as int) == root,
                self.0@[root as int] < 0,
                old(self).on_way(x as int, cur as int),
                forall|i: int|
                    0 <= i < self.0@.len() ==> self.0@[i] == if old(self).on_way(x as int, i)
                        && !old(self).on_way(cur as int, i) {
                        root
                    } else {
                        old(self).0@[i]
                    },
                forall|i: int| 0 <= i < self.0@.len() ==> self.root_of(i) == old(self).root_of(i),
                forall|i: int|
                    0 <= i < self.0@.len() ==> (self.0@[i] < 0 <==> old(self).0@[i] < 0),
                forall|i: int|
                    0 <= i < self.0@.len() && old(self).0@[i] < 0 ==> self.0@[i] == old(self).0@[i],
            decreases self.2@ - self.1@[cur as int],
        {
            let next = self.0[cur as usize];
            let ghost before = *self;
            proof {
                old(self).lemma_on_way(cur as int, cur as int);
                old(self).lemma_root_of(cur as int);
                assert(next == old(self).0@[cur as int]);
            }
            self.0[cur as usize] = root;
            proof {
                before.lemma_compressed(&*self, cur as int);
                assert forall|i: int| 0 <= i < self.0@.len() implies self.0@[i] == if old(
                    self,
                ).on_way(x as int, i) && !old(self).on_way(next as int, i) {
                    root
                } else {
                    old(self).0@[i]
                } by {
                    old(self).lemma_on_way(cur as int, i);
                    if old(self).on_way(next as int, i) {
                        old(self).lemma_on_way_rank(next as int, i);
                    }
                }
                old(self).lemma_on_way(next as int, next as int);
                old(self).lemma_on_way(cur as int, next as int);
                old(self).lemma_on_way_transitive(x as int, cur as int, next as int);
            }
            cur = next;
        }
        proof {
            assert forall|i: int|
                0 <= i < old(self).spec_len() && !old(self).is_root(i) implies self.parent(i)
                == if old(self).on_way(x as int, i) {
                root as int
            } else {
                old(self).parent(i)
            } by {
                old(self).lemma_on_way(root as int, i);
            }
        }
        Ok(root)
    }

    /// Merges the set that holds `x` and the set that holds `y`: the root of
    /// the smaller set is linked to that of the larger, and to that of `y` if
    /// neither is larger.
    pub fn union(&mut self, x: isize, y: isize) -> (merged: Result<(), &'static str>)
        requires
            old(self).wf(),
        ensures
            final(self).wf(),
            final(self).spec_len() == old(self).spec_len(),
            merged is Err <==> !(0 <= x < old(self).spec_len()) || !(0 <= y < old(
                self,
            ).spec_len()),
            merged matches Err(e) ==> e@ == "index out of bounds"@ && forall|i: int|
                0 <= i < old(self).spec_len() ==> final(self).root_of(i) == old(self).root_of(i)
                    && final(self).is_root(i) == old(self).is_root(i) && (old(self).is_root(i)
                    ==> final(self).set_size(i) == old(self).set_size(i)),
            merged is Err && !(0 <= x < old(self).spec_len()) ==> *final(self) == *old(self),
            merged is Err && 0 <= x < old(self).spec_len() ==> forall|i: int|
                0 <= i < old(self).spec_len() && !old(self).is_root(i) ==> final(self).parent(i)
                    == if old(self).on_way(x as int, i) {
                    old(self).root_of(i)
                } else {
                    old(self).parent(i)
                },
            merged is Ok ==> {
                let a = old(self).root_of(x as int);
                let b = old(self).root_of(y as int);
                let winner = if old(self).set_size(a) > old(self).set_size(b) {
                    a
                } else {
                    b
                };
                &&& forall|i: int|
                    0 <= i < old(self).spec_len() ==> final(self).root_of(i) == if old(
                        self,
                    ).root_of(i) == a || old(self).root_of(i) == b {
                        winner
                    } else {
                        old(self).root_of(i)
                    }
                &&& final(self).root_of(x as int) == final(self).root_of(y as int)
                &&& final(self).set_size(winner) == if a == b {
                    old(self).set_size(a)
                } else {
                    old(self).set_size(a) + old(self).set_size(b)
                }
                &&& forall|i: int|
                    0 <= i < old(self).spec_len() ==> (final(self).is_root(i) <==> old(
                        self,
                    ).is_root(i) && (i == winner || (i != a && i != b)))
                &&& forall|i: int|
                    0 <= i < old(self).spec_len() && old(self).is_root(i) && i != a && i != b
                        ==> final(self).set_size(i) == old(self).set_size(i)
                &&& forall|i: int|
                    0 <= i < old(self).spec_len() && !final(self).is_root(i)
                        ==> #[trigger] final(self).parent(i) == if old(self).is_root(i) {
                        winner
                    } else if old(self).on_way(x as int, i) || old(self).on_way(y as int, i) {
                        old(self).root_of(i)
                    } else {
                        old(self).parent(i)
                    }
            },
    {
        let root1 = match self.find(x) {
            Ok(root) => root,
            Err(e) => {
                return Err(e);
            },
        };
        let ghost mid = *self;
        let root2 = match self.find(y) {
            Ok(root) => root,
            Err(e) => {
                proof {
                    assert forall|i: int|
                        0 <= i < old(self).spec_len() && !old(self).is_root(i) implies self.parent(
                        i,
                    ) == if old(self).on_way(x as int, i) {
                        old(self).root_of(i)
                    } else {
                        old(self).parent(i)
                    } by {
                        old(self).lemma_on_way(x as int, i);
                    }
                }
                return Err(e);
            },
        };
        proof {
            old(self).lemma_found(&mid, x as int);
            mid.lemma_found(&*self, y as int);
            old(self).lemma_searched_twice(&mid, &*self, x as int, y as int);
            old(self).lemma_root_of(x as int);
            old(self).lemma_root_of(y as int);
            mid.lemma_root_of(y as int);
            self.lemma_root_of(root1 as int);
            self.lemma_root_of(root2 as int);
        }
        if root1 == root2 {
            return Ok(());
        }
        let ghost before = *self;
        proof {
            lemma_recorded_size_two(self.0@, root1 as int, root2 as int, self.0@.len() as int);
        }
        if self.0[root1 as usize].abs() > self.0[root2 as usize].abs() {
            let total = self.0[root1 as usize] + self.0[root2 as usize];
            self.0[root1 as usize] = total;
            self.0[root2 as usize] = root1;
            proof {
                self.1@ = self.1@.update(
                    root1 as int,
                    self.1@[root1 as int] + self.1@[root2 as int] + 1,
                );
                self.2@ = self.2@ + self.2@ + 1;
                before.lemma_linked(&*self, root1 as int, root2 as int);
            }
        } else {
            let total = self.0[root2 as usize] + self.0[root1 as usize];
            self.0[root2 as usize] = total;
            self.0[root1 as usize] = root2;
            proof {
                self.1@ = self.1@.update(
                    root2 as int,
                    self.1@[root2 as int] + self.1@[root1 as int] + 1,
                );
                self.2@ = self.2@ + self.2@ + 1;
                before.lemma_linked(&*self, root2 as int, root1 as int);
            }
        }
        Ok(())
    }
}

} // verus!
