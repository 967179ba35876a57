//! How the suicide rule can be decided on the board as it stands, without
//! playing the move out.

use vstd::prelude::*;
use crate::mov::Stone;
use crate::preservation::lemma_liberty_survives;
use crate::sequences::lemma_filter_sources;
use crate::rules::{breathes, joins, stays_apart, touches, vacant, Position};
use crate::utils::bounds::{adjacent, Point};

verus! {

/// A move on a vacant point is suicide exactly when the stone's chain has
/// no liberty once the stone is placed and the stone captures nothing.
pub proof fn lemma_suicide_criterion(pos: Position, p: Point, c: Stone)
    requires
        pos.tidy(),
        vacant(pos.stones.dom(), pos.size, p),
    ensures
        pos.suicide(p, c) == !(pos.keeps_liberty(p, c) || pos.captures(p, c)),
{
    let mid = pos.placed(p, c);
    let after = pos.play(p, c);
    let own = pos.joined(p, c);
    let kept = pos.chains.filter(stays_apart(p, c));
    let src = lemma_filter_sources(pos.chains, stays_apart(p, c));
    assert(mid.stones.dom() =~= pos.stones.dom().insert(p));
    if pos.keeps_liberty(p, c) {
        lemma_liberty_survives(pos, p, c, own);
    }
    if pos.captures(p, c) {
        let i = choose|i: int|
            0 <= i < pos.chains.len() && pos.smothers(#[trigger] pos.chains[i], p, c);
        let g = pos.chains[i];
        let m = choose|m: Point| g.members.contains(m) && #[trigger] adjacent(m, p);
        assert(stays_apart(p, c)(g));
        let j = choose|j: int| 0 <= j < src.len() && #[trigger] src[j] == i;
        assert(mid.chains[j] == kept[j]);
        assert(mid.stifled(mid.chains[j], p, c));
        assert(mid.taken(p, c).contains(m));
        assert(pos.sound(g));
        assert(own.contains(p) && adjacent(p, m) && vacant(after.stones.dom(), pos.size, m));
    }
    if !pos.suicide(p, c) {
        let (m, q) = choose|m: Point, q: Point|
            own.contains(m) && #[trigger] adjacent(m, q) && vacant(
                after.stones.dom(),
                pos.size,
                q,
            );
        if mid.stones.contains_key(q) {
            assert(mid.taken(p, c).contains(q));
            let j = choose|j: int|
                0 <= j < mid.chains.len() && mid.stifled(#[trigger] mid.chains[j], p, c)
                    && mid.chains[j].members.contains(q);
            assert(j < kept.len());
            assert(mid.chains[j] == kept[j]);
            assert(pos.smothers(pos.chains[src[j]], p, c));
        } else {
            assert(own.contains(m) && adjacent(m, q) && vacant(
                pos.stones.dom().insert(p),
                pos.size,
                q,
            ));
        }
    }
}

/// The stone's chain has a liberty once the stone is placed exactly when
/// the point has a vacant neighbour or one of the chains that the stone
/// joins has a liberty other than the point.
pub proof fn lemma_keeps_liberty_cases(pos: Position, p: Point, c: Stone)
    ensures
        pos.keeps_liberty(p, c) == ((exists|q: Point| #[trigger]
            adjacent(p, q) && vacant(pos.stones.dom(), pos.size, q)) || exists|i: int|
            0 <= i < pos.chains.len() && joins(#[trigger] pos.chains[i], p, c) && breathes(
                pos.stones.dom().insert(p),
                pos.size,
                pos.chains[i].members,
            )),
{
    let own = pos.joined(p, c);
    let shut = pos.stones.dom().insert(p);
    if pos.keeps_liberty(p, c) {
        let (m, q) = choose|m: Point, q: Point|
            own.contains(m) && #[trigger] adjacent(m, q) && vacant(shut, pos.size, q);
        if m == p {
            assert(adjacent(p, q) && vacant(pos.stones.dom(), pos.size, q));
        } else {
            let i = choose|i: int|
                0 <= i < pos.chains.len() && joins(#[trigger] pos.chains[i], p, c)
                    && pos.chains[i].members.contains(m);
            assert(pos.chains[i].members.contains(m) && adjacent(m, q) && vacant(
                shut,
                pos.size,
                q,
            ));
        }
    }
    if exists|q: Point| #[trigger] adjacent(p, q) && vacant(pos.stones.dom(), pos.size, q) {
        let q = choose|q: Point| #[trigger]
            adjacent(p, q) && vacant(pos.stones.dom(), pos.size, q);
        assert(own.contains(p) && adjacent(p, q) && vacant(shut, pos.size, q));
    }
    if exists|i: int|
        0 <= i < pos.chains.len() && joins(#[trigger] pos.chains[i], p, c) && breathes(
            shut,
            pos.size,
            pos.chains[i].members,
        ) {
        let i = choose|i: int|
            0 <= i < pos.chains.len() && joins(#[trigger] pos.chains[i], p, c) && breathes(
                shut,
                pos.size,
                pos.chains[i].members,
            );
        let (m, q) = choose|m: Point, q: Point|
            pos.chains[i].members.contains(m) && #[trigger] adjacent(m, q) && vacant(
                shut,
                pos.size,
                q,
            );
        assert(own.contains(m) && adjacent(m, q) && vacant(shut, pos.size, q));
    }
}

/// A stone with neither a liberty nor an ally next to it stands alone
/// without a liberty.
pub proof fn lemma_alone_and_shut_in(pos: Position, p: Point, c: Stone)
    requires
        pos.tidy(),
        !pos.liberties_or_allies(p, c),
    ensures
        !pos.keeps_liberty(p, c),
{
    lemma_keeps_liberty_cases(pos, p, c);
    assert forall|i: int| 0 <= i < pos.chains.len() implies !joins(
        #[trigger] pos.chains[i],
        p,
        c,
    ) by {
        let g = pos.chains[i];
        if joins(g, p, c) {
            let m = choose|m: Point| g.members.contains(m) && #[trigger] adjacent(m, p);
            assert(pos.sound(g));
            assert(adjacent(p, m));
        }
    }
    assert forall|q: Point| #[trigger] adjacent(p, q) implies !vacant(
        pos.stones.dom(),
        pos.size,
        q,
    ) by {}
}

} // verus!
