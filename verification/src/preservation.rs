//! Proof that playing a legal move keeps a board well formed.

use vstd::prelude::*;
use crate::connectivity::{
    connected, lemma_hub_connects, lemma_linked_in_superset, lemma_linked_reflexive,
    lemma_linked_step, lemma_linked_transitive, linked,
};
use crate::mov::{Interaction, Stone};
use crate::rules::{breathes, joins, separate, stays_apart, touches, vacant, Group, Position};
use crate::sequences::lemma_filter_sources;
use crate::utils::bounds::{adjacent, on_board, Point};

verus! {

/// The chain that a new stone belongs to hangs together: every chain that
/// it joins touches the stone, so every member has a walk to the stone.
pub proof fn lemma_joined_connected(pos: Position, p: Point, c: Stone)
    requires
        pos.tidy(),
    ensures
        connected(pos.joined(p, c)),
{
    let u = pos.joined(p, c);
    assert forall|a: Point| u.contains(a) implies #[trigger] linked(u, a, p) by {
        if a == p {
            lemma_linked_reflexive(u, p);
        } else {
            let i = choose|i: int|
                0 <= i < pos.chains.len() && joins(#[trigger] pos.chains[i], p, c)
                    && pos.chains[i].members.contains(a);
            let g = pos.chains[i];
            let m = choose|m: Point| g.members.contains(m) && #[trigger] adjacent(m, p);
            assert(pos.sound(g));
            assert(linked(g.members, a, m));
            assert(g.members.subset_of(u));
            lemma_linked_in_superset(g.members, u, a, m);
            lemma_linked_step(u, m, p);
            lemma_linked_transitive(u, a, m, p);
        }
    }
    lemma_hub_connects(u, p);
}

/// Placing a stone on a vacant point of a tidy board, and merging the
/// chains it joins, gives a tidy board.
pub proof fn lemma_placed_tidy(pos: Position, p: Point, c: Stone)
    requires
        pos.tidy(),
        vacant(pos.stones.dom(), pos.size, p),
    ensures
        pos.placed(p, c).tidy(),
{
    let after = pos.placed(p, c);
    let kept = pos.chains.filter(stays_apart(p, c));
    let src = lemma_filter_sources(pos.chains, stays_apart(p, c));
    let merged = Group { stone: c, members: pos.joined(p, c) };
    let n = kept.len() as int;
    assert(after.chains.len() == n + 1);
    assert(after.chains[n] == merged);
    assert forall|j: int| 0 <= j < n implies #[trigger] after.chains[j] == pos.chains[src[j]]
        && !joins(pos.chains[src[j]], p, c) by {
        assert(after.chains[j] == kept[j]);
    }
    lemma_joined_connected(pos, p, c);

    assert forall|j: int| 0 <= j < after.chains.len() implies after.sound(
        #[trigger] after.chains[j],
    ) by {
        let g = after.chains[j];
        if j < n {
            assert(pos.sound(pos.chains[src[j]]));
        } else {
            assert forall|m: Point| #[trigger] g.members.contains(m) implies after.stones.contains_key(
                m,
            ) && after.stones[m] == g.stone by {
                if m != p {
                    let i = choose|i: int|
                        0 <= i < pos.chains.len() && joins(#[trigger] pos.chains[i], p, c)
                            && pos.chains[i].members.contains(m);
                    assert(pos.sound(pos.chains[i]));
                }
            }
        }
    }

    assert forall|q: Point| #[trigger] after.stones.contains_key(q) implies exists|j: int|
        0 <= j < after.chains.len() && (#[trigger] after.chains[j]).members.contains(q) by {
        if q == p {
            assert(after.chains[n].members.contains(q));
        } else {
            let i = choose|i: int|
                0 <= i < pos.chains.len() && (#[trigger] pos.chains[i]).members.contains(q);
            if joins(pos.chains[i], p, c) {
                assert(after.chains[n].members.contains(q));
            } else {
                assert(stays_apart(p, c)(pos.chains[i]));
                let j = choose|j: int| 0 <= j < src.len() && #[trigger] src[j] == i;
                assert(after.chains[j].members.contains(q));
            }
        }
    }

    assert forall|j: int, k: int|
        0 <= j < after.chains.len() && 0 <= k < after.chains.len() && j != k implies separate(
        #[trigger] after.chains[j],
        #[trigger] after.chains[k],
    ) by {
        if j < n && k < n {
            assert(src[j] != src[k]) by {
                if j < k {
                    assert(src[j] < src[k]);
                } else {
                    assert(src[k] < src[j]);
                }
            }
            assert(separate(pos.chains[src[j]], pos.chains[src[k]]));
        } else if j < n {
            lemma_kept_separate_from_joined(pos, p, c, src[j]);
        } else {
            lemma_kept_separate_from_joined(pos, p, c, src[k]);
        }
    }
}

/// A chain that the new stone does not join shares no point with the
/// stone's chain, and does not touch it if it has the same colour.
pub proof fn lemma_kept_separate_from_joined(pos: Position, p: Point, c: Stone, k: int)
    requires
        pos.tidy(),
        vacant(pos.stones.dom(), pos.size, p),
        0 <= k < pos.chains.len(),
        !joins(pos.chains[k], p, c),
    ensures
        separate(pos.chains[k], Group { stone: c, members: pos.joined(p, c) }),
        separate(Group { stone: c, members: pos.joined(p, c) }, pos.chains[k]),
{
    let g = pos.chains[k];
    let merged = Group { stone: c, members: pos.joined(p, c) };
    assert(pos.sound(g));
    assert forall|q: Point| !(g.members.contains(q) && merged.members.contains(q)) by {
        if g.members.contains(q) && merged.members.contains(q) {
            assert(q != p);
            let i = choose|i: int|
                0 <= i < pos.chains.len() && joins(#[trigger] pos.chains[i], p, c)
                    && pos.chains[i].members.contains(q);
            assert(separate(pos.chains[k], pos.chains[i]));
        }
    }
    if g.stone == c {
        assert forall|x: Point, y: Point|
            g.members.contains(x) && merged.members.contains(y) implies !#[trigger] adjacent(
            x,
            y,
        ) by {
            if adjacent(x, y) {
                if y != p {
                    let i = choose|i: int|
                        0 <= i < pos.chains.len() && joins(#[trigger] pos.chains[i], p, c)
                            && pos.chains[i].members.contains(y);
                    assert(separate(pos.chains[k], pos.chains[i]));
                }
            }
        }
        assert forall|x: Point, y: Point|
            merged.members.contains(x) && g.members.contains(y) implies !#[trigger] adjacent(
            x,
            y,
        ) by {
            if adjacent(x, y) {
                assert(adjacent(y, x));
            }
        }
    }
}

/// Removing the captured chains, with their stones, from a tidy board
/// gives a tidy board.
pub proof fn lemma_swept_tidy(pos: Position, p: Point, c: Stone)
    requires
        pos.tidy(),
    ensures
        pos.swept(p, c).tidy(),
{
    let after = pos.swept(p, c);
    let src = lemma_filter_sources(pos.chains, pos.survives(p, c));
    assert forall|j: int| 0 <= j < after.chains.len() implies #[trigger] after.chains[j]
        == pos.chains[src[j]] && !pos.stifled(pos.chains[src[j]], p, c) by {}

    assert forall|j: int| 0 <= j < after.chains.len() implies after.sound(
        #[trigger] after.chains[j],
    ) by {
        let g = after.chains[j];
        assert(pos.sound(pos.chains[src[j]]));
        assert forall|m: Point| #[trigger] g.members.contains(m) implies after.stones.contains_key(
            m,
        ) && after.stones[m] == g.stone by {
            if pos.taken(p, c).contains(m) {
                let i = choose|i: int|
                    0 <= i < pos.chains.len() && pos.stifled(#[trigger] pos.chains[i], p, c)
                        && pos.chains[i].members.contains(m);
                if i != src[j] {
                    assert(separate(pos.chains[i], pos.chains[src[j]]));
                }
            }
        }
    }

    assert forall|q: Point| #[trigger] after.stones.contains_key(q) implies exists|j: int|
        0 <= j < after.chains.len() && (#[trigger] after.chains[j]).members.contains(q) by {
        let i = choose|i: int|
            0 <= i < pos.chains.len() && (#[trigger] pos.chains[i]).members.contains(q);
        assert(!pos.taken(p, c).contains(q));
        assert(pos.survives(p, c)(pos.chains[i]));
        let j = choose|j: int| 0 <= j < src.len() && #[trigger] src[j] == i;
        assert(after.chains[j].members.contains(q));
    }

    assert forall|j: int, k: int|
        0 <= j < after.chains.len() && 0 <= k < after.chains.len() && j != k implies separate(
        #[trigger] after.chains[j],
        #[trigger] after.chains[k],
    ) by {
        assert(src[j] != src[k]) by {
            if j < k {
                assert(src[j] < src[k]);
            } else {
                assert(src[k] < src[j]);
            }
        }
        assert(separate(pos.chains[src[j]], pos.chains[src[k]]));
    }
}

/// A liberty of a chain that is not the new stone's point is still a
/// liberty after the move, and a chain with a liberty once the stone is
/// placed keeps it through the captures.
pub proof fn lemma_liberty_survives(pos: Position, p: Point, c: Stone, members: Set<Point>)
    requires
        breathes(pos.stones.dom().insert(p), pos.size, members),
    ensures
        breathes(pos.play(p, c).stones.dom(), pos.size, members),
{
    let (m, q) = choose|m: Point, q: Point|
        members.contains(m) && #[trigger] adjacent(m, q) && vacant(
            pos.stones.dom().insert(p),
            pos.size,
            q,
        );
    assert(members.contains(m) && adjacent(m, q) && vacant(pos.play(p, c).stones.dom(), pos.size, q));
}

/// After a legal move every chain on the board has a liberty.
pub proof fn lemma_play_leaves_all_alive(pos: Position, p: Point, c: Stone)
    requires
        pos.wf(),
        vacant(pos.stones.dom(), pos.size, p),
        !pos.suicide(p, c),
    ensures
        forall|j: int|
            0 <= j < pos.play(p, c).chains.len() ==> pos.play(p, c).alive(
                #[trigger] pos.play(p, c).chains[j],
            ),
{
    let mid = pos.placed(p, c);
    let after = pos.play(p, c);
    let kept = pos.chains.filter(stays_apart(p, c));
    let from_old = lemma_filter_sources(pos.chains, stays_apart(p, c));
    let from_mid = lemma_filter_sources(mid.chains, mid.survives(p, c));
    assert forall|j: int| 0 <= j < after.chains.len() implies after.alive(
        #[trigger] after.chains[j],
    ) by {
        let g = after.chains[j];
        let k = from_mid[j];
        assert(g == mid.chains[k] && !mid.stifled(g, p, c));
        if k == kept.len() {
            assert(g.members == pos.joined(p, c));
        } else {
            assert(mid.chains[k] == kept[k]);
            let i = from_old[k];
            assert(g == pos.chains[i] && !joins(g, p, c));
            assert(pos.alive(pos.chains[i]));
            let (m, q) = choose|m: Point, q: Point|
                g.members.contains(m) && #[trigger] adjacent(m, q) && vacant(
                    pos.stones.dom(),
                    pos.size,
                    q,
                );
            if q == p {
                assert(touches(g.members, p));
                assert(mid.alive(g));
            } else {
                assert(g.members.contains(m) && adjacent(m, q) && vacant(
                    mid.stones.dom(),
                    pos.size,
                    q,
                ));
            }
            lemma_liberty_survives(pos, p, c, g.members);
        }
    }
}

/// A legal move keeps the board well formed: afterwards the chains still
/// partition the stones into maximal connected groups of one colour, and
/// every chain has a liberty.
pub proof fn lemma_play_keeps_wf(pos: Position, p: Point, c: Stone)
    requires
        pos.wf(),
        pos.verdict(p, c) == Interaction::Legal,
    ensures
        pos.play(p, c).wf(),
{
    lemma_placed_tidy(pos, p, c);
    lemma_swept_tidy(pos.placed(p, c), p, c);
    lemma_play_leaves_all_alive(pos, p, c);
}

} // verus!
