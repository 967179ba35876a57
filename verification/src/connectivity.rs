//! Walks along orthogonal steps, and what it means for a set of points to
//! hang together.

use vstd::prelude::*;
use crate::utils::bounds::{adjacent, Point};

verus! {

/// Whether `path` is a non-empty walk that stays inside `within` and moves
/// one orthogonal step at a time.
pub open spec fn is_walk(path: Seq<Point>, within: Set<Point>) -> bool {
    &&& path.len() > 0
    &&& forall|k: int| 0 <= k < path.len() ==> within.contains(#[trigger] path[k])
    &&& forall|k: int| 0 <= k < path.len() - 1 ==> adjacent(#[trigger] path[k], path[k + 1])
}

/// Whether a walk inside `within` leads from `a` to `b`.
pub open spec fn linked(within: Set<Point>, a: Point, b: Point) -> bool {
    exists|path: Seq<Point>| #[trigger]
        is_walk(path, within) && path.first() == a && path.last() == b
}

/// Whether every two points of `members` are joined by a walk inside it.
pub open spec fn connected(members: Set<Point>) -> bool {
    forall|a: Point, b: Point|
        members.contains(a) && members.contains(b) ==> #[trigger] linked(members, a, b)
}

/// A point of a set is linked to itself.
pub proof fn lemma_linked_reflexive(within: Set<Point>, a: Point)
    requires
        within.contains(a),
    ensures
        linked(within, a, a),
{
    let path = seq![a];
    assert(is_walk(path, within));
    assert(path.first() == a && path.last() == a);
}

/// A walk can be read backwards.
pub proof fn lemma_linked_symmetric(within: Set<Point>, a: Point, b: Point)
    requires
        linked(within, a, b),
    ensures
        linked(within, b, a),
{
    let path = choose|path: Seq<Point>| #[trigger]
        is_walk(path, within) && path.first() == a && path.last() == b;
    let back = Seq::new(path.len(), |k: int| path[path.len() - 1 - k]);
    assert forall|k: int| 0 <= k < back.len() - 1 implies adjacent(#[trigger] back[k], back[k + 1]) by {
        let j = path.len() - 2 - k;
        assert(adjacent(path[j], path[j + 1]));
    }
    assert(is_walk(back, within));
    assert(back.first() == b && back.last() == a);
}

/// Two walks that meet can be joined end to end.
pub proof fn lemma_linked_transitive(within: Set<Point>, a: Point, b: Point, c: Point)
    requires
        linked(within, a, b),
        linked(within, b, c),
    ensures
        linked(within, a, c),
{
    let first = choose|path: Seq<Point>| #[trigger]
        is_walk(path, within) && path.first() == a && path.last() == b;
    let second = choose|path: Seq<Point>| #[trigger]
        is_walk(path, within) && path.first() == b && path.last() == c;
    let whole = first + second.subrange(1, second.len() as int);
    assert forall|k: int| 0 <= k < whole.len() implies within.contains(#[trigger] whole[k]) by {
        if k < first.len() {
            assert(whole[k] == first[k]);
        } else {
            assert(whole[k] == second[k - first.len() + 1]);
        }
    }
    assert forall|k: int| 0 <= k < whole.len() - 1 implies adjacent(#[trigger] whole[k], whole[k + 1]) by {
        if k < first.len() - 1 {
            assert(adjacent(first[k], first[k + 1]));
        } else if k == first.len() - 1 {
            assert(whole[k] == second[0]);
            assert(adjacent(second[0], second[1]));
        } else {
            let j = k - first.len() + 1;
            assert(adjacent(second[j], second[j + 1]));
        }
    }
    assert(is_walk(whole, within));
    assert(whole.first() == a && whole.last() == c);
}

/// A walk inside a set is also a walk inside any larger set.
pub proof fn lemma_linked_in_superset(small: Set<Point>, large: Set<Point>, a: Point, b: Point)
    requires
        linked(small, a, b),
        small.subset_of(large),
    ensures
        linked(large, a, b),
{
    let path = choose|path: Seq<Point>| #[trigger]
        is_walk(path, small) && path.first() == a && path.last() == b;
    assert forall|k: int| 0 <= k < path.len() implies large.contains(#[trigger] path[k]) by {
        assert(small.contains(path[k]));
    }
    assert(is_walk(path, large));
}

/// Two adjacent points of a set are linked.
pub proof fn lemma_linked_step(within: Set<Point>, a: Point, b: Point)
    requires
        within.contains(a),
        within.contains(b),
        adjacent(a, b),
    ensures
        linked(within, a, b),
{
    let path = seq![a, b];
    assert(is_walk(path, within));
    assert(path.first() == a && path.last() == b);
}

/// A set in which every point is linked to one hub is connected.
pub proof fn lemma_hub_connects(members: Set<Point>, hub: Point)
    requires
        forall|a: Point| members.contains(a) ==> #[trigger] linked(members, a, hub),
    ensures
        connected(members),
{
    assert forall|a: Point, b: Point| members.contains(a) && members.contains(b) implies #[trigger] linked(
        members,
        a,
        b,
    ) by {
        assert(linked(members, b, hub));
        lemma_linked_symmetric(members, b, hub);
        lemma_linked_transitive(members, a, hub, b);
    }
}

} // verus!
