//! Chains of arena slots.
//!
//! The linked storages thread singly linked lists through a vector of slots:
//! every record names the slot that follows it. A family of such lists is
//! described here by its successor map, from each live slot to the slot its
//! link names. Records are only ever linked in front of older ones, so every
//! link leads to a smaller index; this is what makes a chain finite.

use vstd::prelude::*;

verus! {

/// A link as a mathematical integer.
pub open spec fn link_int(link: Option<usize>) -> Option<int> {
    match link {
        Some(k) => Some(k as int),
        None => None,
    }
}

/// The link of slot `i` leads to a live slot with a smaller index, or nowhere.
pub open spec fn link_ok(succ: Map<int, Option<int>>, i: int) -> bool {
    &&& i >= 0
    &&& succ[i] is Some ==> 0 <= succ[i].unwrap() < i && succ.dom().contains(succ[i].unwrap())
}

/// Every link of the family leads downwards to a live slot.
pub open spec fn descending(succ: Map<int, Option<int>>) -> bool {
    forall|i: int| succ.dom().contains(i) ==> #[trigger] link_ok(succ, i)
}

/// The slots reached from `cur` by following links, in the order met.
pub open spec fn walk(succ: Map<int, Option<int>>, cur: Option<int>) -> Seq<int>
    decreases
            (match cur {
                Some(i) => if i >= 0 {
                    i + 1
                } else {
                    0
                },
                None => 0,
            }),
{
    match cur {
        Some(i) => if i >= 0 && succ.dom().contains(i) {
            let next = succ[i];
            if next is Some && !(0 <= next.unwrap() < i) {
                seq![i]
            } else {
                seq![i] + walk(succ, next)
            }
        } else {
            Seq::empty()
        },
        None => Seq::empty(),
    }
}

/// `link`, unless it names `t`: then `past`, the slot that follows `t`.
pub open spec fn redirect(link: Option<int>, t: int, past: Option<int>) -> Option<int> {
    if link == Some(t) {
        past
    } else {
        link
    }
}

/// `s` with every occurrence of `t` taken out.
pub open spec fn without(s: Seq<int>, t: int) -> Seq<int>
    decreases s.len(),
{
    if s.len() == 0 {
        s
    } else if s[0] == t {
        without(s.drop_first(), t)
    } else {
        seq![s[0]] + without(s.drop_first(), t)
    }
}

/// A walk from a live slot starts with that slot and goes on from its link.
pub proof fn lemma_walk_unfold(succ: Map<int, Option<int>>, i: int)
    requires
        descending(succ),
        succ.dom().contains(i),
    ensures
        walk(succ, Some(i)) == seq![i] + walk(succ, succ[i]),
        walk(succ, Some(i)).len() == 1 + walk(succ, succ[i]).len(),
        walk(succ, Some(i))[0] == i,
        forall|j: int|
            0 <= j < walk(succ, succ[i]).len() ==> walk(succ, Some(i))[j + 1] == walk(
                succ,
                succ[i],
            )[j],
{
    assert(link_ok(succ, i));
    if succ[i] is None {
        assert(walk(succ, succ[i]) =~= Seq::empty());
        assert(seq![i] + walk(succ, succ[i]) =~= seq![i]);
    }
}

/// A walk is empty exactly when it starts nowhere or at a slot that is not live.
pub proof fn lemma_walk_empty(succ: Map<int, Option<int>>, cur: Option<int>)
    requires
        descending(succ),
    ensures
        walk(succ, cur).len() > 0 <==> (cur is Some && succ.dom().contains(cur.unwrap())),
{
    if cur is Some && succ.dom().contains(cur.unwrap()) {
        lemma_walk_unfold(succ, cur.unwrap());
    }
}

/// The shape of a walk: it starts at `cur`, every member is live, each member's
/// link names the next member, which is smaller, and the last member's link is empty.
pub proof fn lemma_walk_shape(succ: Map<int, Option<int>>, cur: Option<int>)
    requires
        descending(succ),
    ensures
        forall|j: int|
            0 <= j < walk(succ, cur).len() ==> succ.dom().contains(#[trigger] walk(succ, cur)[j]),
        forall|j: int|
            0 <= j < walk(succ, cur).len() ==> cur is Some && #[trigger] walk(succ, cur)[j]
                <= cur.unwrap() - j,
        forall|j: int|
            0 <= j < walk(succ, cur).len() - 1 ==> succ[#[trigger] walk(succ, cur)[j]] == Some(
                walk(succ, cur)[j + 1],
            ),
        walk(succ, cur).len() > 0 ==> walk(succ, cur)[0] == cur.unwrap() && succ[walk(
            succ,
            cur,
        ).last()] is None,
    decreases
            (match cur {
                Some(i) => if i >= 0 {
                    i + 1
                } else {
                    0
                },
                None => 0,
            }),
{
    if cur is Some && succ.dom().contains(cur.unwrap()) {
        let i = cur.unwrap();
        assert(link_ok(succ, i));
        lemma_walk_unfold(succ, i);
        lemma_walk_shape(succ, succ[i]);
        lemma_walk_empty(succ, succ[i]);
        let w = walk(succ, cur);
        let rest = walk(succ, succ[i]);
        assert forall|j: int| 0 <= j < w.len() implies succ.dom().contains(#[trigger] w[j]) by {
            if j > 0 {
                assert(w[j] == rest[j - 1]);
            }
        }
        assert forall|j: int| 0 <= j < w.len() implies #[trigger] w[j] <= i - j by {
            if j > 0 {
                assert(w[j] == rest[j - 1]);
            }
        }
        assert forall|j: int| 0 <= j < w.len() - 1 implies succ[#[trigger] w[j]] == Some(
            w[j + 1],
        ) by {
            if j > 0 {
                assert(w[j] == rest[j - 1]);
                assert(w[j + 1] == rest[j]);
            } else {
                assert(w[1] == rest[0]);
            }
        }
        if rest.len() > 0 {
            assert(w.last() == rest.last());
        }
    }
}

/// Members of a walk get strictly smaller along it.
pub proof fn lemma_walk_strict(succ: Map<int, Option<int>>, cur: Option<int>, a: int, b: int)
    requires
        descending(succ),
        0 <= a < b < walk(succ, cur).len(),
    ensures
        walk(succ, cur)[a] > walk(succ, cur)[b],
    decreases b - a,
{
    lemma_walk_shape(succ, cur);
    let w = walk(succ, cur);
    assert(succ[w[b - 1]] == Some(w[b]));
    assert(link_ok(succ, w[b - 1]));
    if a < b - 1 {
        lemma_walk_strict(succ, cur, a, b - 1);
    }
}

/// No slot occurs twice in a walk.
pub proof fn lemma_walk_no_duplicates(succ: Map<int, Option<int>>, cur: Option<int>)
    requires
        descending(succ),
    ensures
        walk(succ, cur).no_duplicates(),
{
    let w = walk(succ, cur);
    assert forall|a: int, b: int| 0 <= a < w.len() && 0 <= b < w.len() && a != b implies w[a]
        != w[b] by {
        if a < b {
            lemma_walk_strict(succ, cur, a, b);
        } else {
            lemma_walk_strict(succ, cur, b, a);
        }
    }
}

/// A walk depends only on the links of its own members.
pub proof fn lemma_walk_frame(
    s1: Map<int, Option<int>>,
    s2: Map<int, Option<int>>,
    cur: Option<int>,
)
    requires
        descending(s1),
        cur is Some ==> s1.dom().contains(cur.unwrap()),
        forall|j: int|
            0 <= j < walk(s1, cur).len() ==> s2.dom().contains(#[trigger] walk(s1, cur)[j])
                && s2[walk(s1, cur)[j]] == s1[walk(s1, cur)[j]],
    ensures
        walk(s2, cur) == walk(s1, cur),
    decreases
            (match cur {
                Some(i) => if i >= 0 {
                    i + 1
                } else {
                    0
                },
                None => 0,
            }),
{
    if cur is Some {
        let i = cur.unwrap();
        assert(link_ok(s1, i));
        lemma_walk_unfold(s1, i);
        let w = walk(s1, cur);
        let rest = walk(s1, s1[i]);
        assert(w[0] == i);
        assert(s2.dom().contains(i) && s2[i] == s1[i]);
        assert forall|j: int| 0 <= j < rest.len() implies s2.dom().contains(#[trigger] rest[j])
            && s2[rest[j]] == s1[rest[j]] by {
            assert(w[j + 1] == rest[j]);
        }
        lemma_walk_frame(s1, s2, s1[i]);
    }
}

/// Taking out a slot that does not occur changes nothing.
pub proof fn lemma_without_absent(s: Seq<int>, t: int)
    requires
        !s.contains(t),
    ensures
        without(s, t) == s,
    decreases s.len(),
{
    if s.len() > 0 {
        assert(s[0] != t);
        let rest = s.drop_first();
        assert forall|x: int| rest.contains(x) implies s.contains(x) by {
            let j = choose|j: int| 0 <= j < rest.len() && rest[j] == x;
            assert(s[j + 1] == x);
        }
        lemma_without_absent(rest, t);
        assert(seq![s[0]] + rest =~= s);
    }
}

/// What is left after taking `t` out: the other members, and only they.
pub proof fn lemma_without_contains(s: Seq<int>, t: int, x: int)
    ensures
        without(s, t).contains(x) <==> (s.contains(x) && x != t),
    decreases s.len(),
{
    if s.len() > 0 {
        let rest = s.drop_first();
        lemma_without_contains(rest, t, x);
        let r = without(rest, t);
        if s.contains(x) && x != t {
            let j = choose|j: int| 0 <= j < s.len() && s[j] == x;
            if j > 0 {
                assert(rest[j - 1] == x);
                assert(rest.contains(x));
                let k = choose|k: int| 0 <= k < r.len() && r[k] == x;
                if s[0] != t {
                    assert((seq![s[0]] + r)[k + 1] == x);
                }
            } else {
                assert((seq![s[0]] + r)[0] == x);
            }
        }
        if without(s, t).contains(x) {
            let k = choose|k: int| 0 <= k < without(s, t).len() && without(s, t)[k] == x;
            if s[0] != t && k == 0 {
                assert(s[0] == x);
            } else {
                if s[0] != t {
                    assert(r[k - 1] == x);
                }
                assert(r.contains(x));
                let j = choose|j: int| 0 <= j < rest.len() && rest[j] == x;
                assert(s[j + 1] == x);
            }
        }
    }
}

/// Unlinking a slot: once every link that named `t` names the slot past `t`
/// instead, the walk from the same start is the old walk with `t` taken out.
pub proof fn lemma_walk_unlink(
    s1: Map<int, Option<int>>,
    s2: Map<int, Option<int>>,
    cur: Option<int>,
    t: int,
)
    requires
        descending(s1),
        cur is Some ==> s1.dom().contains(cur.unwrap()),
        s1.dom().contains(t),
        forall|j: int|
            0 <= j < walk(s1, cur).len() && walk(s1, cur)[j] != t ==> s2.dom().contains(
                #[trigger] walk(s1, cur)[j],
            ) && s2[walk(s1, cur)[j]] == redirect(s1[walk(s1, cur)[j]], t, s1[t]),
    ensures
        walk(s2, redirect(cur, t, s1[t])) == without(walk(s1, cur), t),
    decreases
            (match cur {
                Some(i) => if i >= 0 {
                    i + 1
                } else {
                    0
                },
                None => 0,
            }),
{
    if cur is Some {
        let i = cur.unwrap();
        assert(link_ok(s1, i));
        assert(link_ok(s1, t));
        lemma_walk_unfold(s1, i);
        let w = walk(s1, cur);
        let rest = walk(s1, s1[i]);
        assert(w.drop_first() =~= rest);
        lemma_walk_shape(s1, s1[i]);
        if i == t {
            assert forall|j: int| 0 <= j < rest.len() implies s2.dom().contains(
                #[trigger] rest[j],
            ) && s2[rest[j]] == s1[rest[j]] by {
                assert(w[j + 1] == rest[j]);
                assert(rest[j] < t);
                assert(link_ok(s1, rest[j]));
            }
            lemma_walk_frame(s1, s2, s1[i]);
            assert(!rest.contains(t));
            lemma_without_absent(rest, t);
        } else {
            assert(w[0] == i);
            assert(s2.dom().contains(i) && s2[i] == redirect(s1[i], t, s1[t]));
            assert forall|j: int| 0 <= j < rest.len() && rest[j] != t implies s2.dom().contains(
                #[trigger] rest[j],
            ) && s2[rest[j]] == redirect(s1[rest[j]], t, s1[t]) by {
                assert(w[j + 1] == rest[j]);
            }
            lemma_walk_unlink(s1, s2, s1[i], t);
            let next2 = redirect(s1[i], t, s1[t]);
            assert(walk(s2, Some(i)) == seq![i] + walk(s2, next2));
        }
    }
}

} // verus!
