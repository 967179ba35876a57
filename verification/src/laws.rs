//! What holds of every board and every move, proved from the rules.

use vstd::prelude::*;
use crate::connectivity::linked;
use crate::legality::lemma_suicide_criterion;
use crate::mov::{Illegal, Interaction, Move, Rule, Stone};
use crate::preservation::lemma_play_keeps_wf;
use crate::rules::{joins, separate, vacant, Group, Position};
use crate::sequences::lemma_filter_sources;
use crate::utils::bounds::{adjacent, on_board, point, Point};

verus! {

/// The board after the given moves are submitted one after another, each
/// played if legal and passed over if not.
pub open spec fn replay(start: Position, moves: Seq<Move>) -> Position
    decreases moves.len(),
{
    if moves.len() == 0 {
        start
    } else {
        replay(start, moves.drop_last()).step(
            point(moves.last().intersection),
            moves.last().stone,
        )
    }
}

/// A move off the board is rejected as out of bounds, and the board stays
/// as it was.
pub proof fn lemma_off_board_is_rejected(pos: Position, p: Point, c: Stone)
    requires
        !on_board(p, pos.size),
    ensures
        pos.verdict(p, c) == Interaction::Illegal(Illegal::OutOfBounds),
        pos.step(p, c) == pos,
{
}

/// A move onto a point of the board that holds a stone, of either colour,
/// is rejected as a repeat, and the board stays as it was.
pub proof fn lemma_occupied_is_rejected(pos: Position, p: Point, c: Stone)
    requires
        on_board(p, pos.size),
        pos.stones.contains_key(p),
    ensures
        pos.verdict(p, c) == Interaction::Illegal(Illegal::Rule(Rule::RepeatMove)),
        pos.step(p, c) == pos,
{
}

/// A move onto a vacant point that captures no chain and leaves the
/// stone's own chain without a liberty is rejected as suicide, and the
/// board stays as it was.
pub proof fn lemma_shut_in_without_capture_is_suicide(pos: Position, p: Point, c: Stone)
    requires
        vacant(pos.stones.dom(), pos.size, p),
        forall|i: int|
            0 <= i < pos.placed(p, c).chains.len() ==> !pos.placed(p, c).stifled(
                #[trigger] pos.placed(p, c).chains[i],
                p,
                c,
            ),
        !pos.placed(p, c).alive(Group { stone: c, members: pos.joined(p, c) }),
    ensures
        pos.verdict(p, c) == Interaction::Illegal(Illegal::Rule(Rule::Suicide)),
        pos.step(p, c) == pos,
{
    let mid = pos.placed(p, c);
    assert(mid.taken(p, c) =~= Set::<Point>::empty());
    assert(mid.stones.remove_keys(mid.taken(p, c)) =~= mid.stones);
}

/// A move onto a vacant point that takes the last liberty of a chain of
/// the other colour is legal, whether or not the point has a liberty of
/// its own, and every point of that chain is vacant afterwards.
pub proof fn lemma_capturing_move_is_legal(pos: Position, p: Point, c: Stone, i: int)
    requires
        pos.wf(),
        vacant(pos.stones.dom(), pos.size, p),
        0 <= i < pos.chains.len(),
        pos.chains[i].stone != c,
        exists|m: Point| pos.chains[i].members.contains(m) && #[trigger] adjacent(m, p),
        !pos.placed(p, c).alive(pos.chains[i]),
    ensures
        pos.verdict(p, c) == Interaction::Legal,
        forall|q: Point|
            pos.chains[i].members.contains(q) ==> #[trigger] pos.step(p, c).state_at(q) == Some(
                crate::game::State::Vacant,
            ),
{
    let g = pos.chains[i];
    let mid = pos.placed(p, c);
    assert(mid.stones.dom() =~= pos.stones.dom().insert(p));
    assert(pos.smothers(pos.chains[i], p, c));
    lemma_suicide_criterion(pos, p, c);
    let src = lemma_filter_sources(pos.chains, crate::rules::stays_apart(p, c));
    assert(crate::rules::stays_apart(p, c)(g));
    let j = choose|j: int| 0 <= j < src.len() && #[trigger] src[j] == i;
    assert(mid.chains[j] == pos.chains.filter(crate::rules::stays_apart(p, c))[j]);
    assert(mid.stifled(mid.chains[j], p, c));
    assert(pos.sound(g));
    assert forall|q: Point| g.members.contains(q) implies #[trigger] pos.step(p, c).state_at(q)
        == Some(crate::game::State::Vacant) by {
        assert(mid.taken(p, c).contains(q));
    }
}

/// On a well-formed board, two adjacent stones of one colour belong to
/// the same chain.
pub proof fn lemma_adjacent_allies_share_chain(pos: Position, a: Point, b: Point)
    requires
        pos.wf(),
        pos.stones.contains_key(a),
        pos.stones.contains_key(b),
        pos.stones[a] == pos.stones[b],
        adjacent(a, b),
    ensures
        exists|i: int|
            0 <= i < pos.chains.len() && (#[trigger] pos.chains[i]).members.contains(a)
                && pos.chains[i].members.contains(b),
{
    let i = choose|i: int|
        0 <= i < pos.chains.len() && (#[trigger] pos.chains[i]).members.contains(a);
    let j = choose|j: int|
        0 <= j < pos.chains.len() && (#[trigger] pos.chains[j]).members.contains(b);
    assert(pos.sound(pos.chains[i]));
    assert(pos.sound(pos.chains[j]));
    if i != j {
        assert(separate(pos.chains[i], pos.chains[j]));
    }
}

/// A stone placed by a legal move next to a stone of its own colour ends
/// up in the same chain as that stone.
pub proof fn lemma_stone_joins_adjacent_ally(pos: Position, p: Point, c: Stone, q: Point)
    requires
        pos.wf(),
        pos.verdict(p, c) == Interaction::Legal,
        pos.stones.contains_key(q),
        pos.stones[q] == c,
        adjacent(p, q),
    ensures
        exists|i: int|
            0 <= i < pos.step(p, c).chains.len() && (#[trigger] pos.step(
                p,
                c,
            ).chains[i]).members.contains(p) && pos.step(p, c).chains[i].members.contains(q),
{
    let after = pos.step(p, c);
    let mid = pos.placed(p, c);
    lemma_play_keeps_wf(pos, p, c);
    assert(after.stones.contains_key(q) && after.stones[q] == c) by {
        if mid.taken(p, c).contains(q) {
            let j = choose|j: int|
                0 <= j < mid.chains.len() && mid.stifled(#[trigger] mid.chains[j], p, c)
                    && mid.chains[j].members.contains(q);
            crate::preservation::lemma_placed_tidy(pos, p, c);
            assert(mid.sound(mid.chains[j]));
        }
    }
    assert(after.stones.contains_key(p) && after.stones[p] == c) by {
        if mid.taken(p, c).contains(p) {
            let j = choose|j: int|
                0 <= j < mid.chains.len() && mid.stifled(#[trigger] mid.chains[j], p, c)
                    && mid.chains[j].members.contains(p);
            crate::preservation::lemma_placed_tidy(pos, p, c);
            assert(mid.sound(mid.chains[j]));
        }
    }
    lemma_adjacent_allies_share_chain(after, p, q);
}

/// A stone placed by a legal move with no stone of its colour next to it
/// starts a chain of its own, which stands last in the list of chains.
pub proof fn lemma_lone_stone_starts_chain(pos: Position, p: Point, c: Stone)
    requires
        pos.wf(),
        pos.verdict(p, c) == Interaction::Legal,
        forall|q: Point| #[trigger]
            adjacent(p, q) && pos.stones.contains_key(q) ==> pos.stones[q] != c,
    ensures
        pos.step(p, c).chains.len() > 0,
        pos.step(p, c).chains.last() == (Group { stone: c, members: set![p] }),
{
    let mid = pos.placed(p, c);
    assert forall|i: int| 0 <= i < pos.chains.len() implies !joins(
        #[trigger] pos.chains[i],
        p,
        c,
    ) by {
        let g = pos.chains[i];
        if joins(g, p, c) {
            let m = choose|m: Point| g.members.contains(m) && #[trigger] adjacent(m, p);
            assert(pos.sound(g));
            assert(adjacent(p, m));
        }
    }
    assert(pos.joined(p, c) =~= set![p]);
    let alone = Group { stone: c, members: set![p] };
    assert(mid.chains.last() == alone);
    assert(mid.chains.drop_last() =~= pos.chains.filter(crate::rules::stays_apart(p, c)));
    assert(mid.survives(p, c)(alone));
    reveal(Seq::filter);
}

/// On a well-formed board every stone belongs to exactly one chain, whose
/// index is the result. That chain has the stone's colour, every stone of
/// the chain can be reached from it by orthogonal steps inside the chain,
/// and the chain has a liberty.
pub proof fn lemma_every_stone_in_one_live_chain(pos: Position, p: Point) -> (i: int)
    requires
        pos.wf(),
        pos.stones.contains_key(p),
    ensures
        0 <= i < pos.chains.len(),
        pos.chains[i].members.contains(p),
        pos.chains[i].stone == pos.stones[p],
        pos.alive(pos.chains[i]),
        forall|q: Point| #[trigger]
            pos.chains[i].members.contains(q) ==> pos.stones.contains_key(q) && pos.stones[q]
                == pos.stones[p] && linked(pos.chains[i].members, p, q),
        forall|j: int|
            0 <= j < pos.chains.len() && (#[trigger] pos.chains[j]).members.contains(p) ==> j == i,
{
    let i = choose|i: int|
        0 <= i < pos.chains.len() && (#[trigger] pos.chains[i]).members.contains(p);
    assert(pos.sound(pos.chains[i]));
    assert(pos.alive(pos.chains[i]));
    assert forall|j: int|
        0 <= j < pos.chains.len() && (#[trigger] pos.chains[j]).members.contains(p) implies j
        == i by {
        if j != i {
            assert(separate(pos.chains[i], pos.chains[j]));
        }
    }
    i
}

/// Submitting a move to a well-formed board, whatever the verdict, gives
/// a well-formed board.
pub proof fn lemma_step_keeps_wf(pos: Position, p: Point, c: Stone)
    requires
        pos.wf(),
    ensures
        pos.step(p, c).wf(),
{
    if pos.verdict(p, c) == Interaction::Legal {
        lemma_play_keeps_wf(pos, p, c);
    }
}

/// Whatever moves are submitted to an empty board, in whatever order, the
/// board that results is well formed: its chains partition its stones
/// into maximal connected groups of one colour, each with a liberty.
pub proof fn lemma_replay_from_empty_wf(size: int, moves: Seq<Move>)
    requires
        size >= 1,
    ensures
        replay(Position::empty(size), moves).wf(),
    decreases moves.len(),
{
    if moves.len() > 0 {
        lemma_replay_from_empty_wf(size, moves.drop_last());
        lemma_step_keeps_wf(
            replay(Position::empty(size), moves.drop_last()),
            point(moves.last().intersection),
            moves.last().stone,
        );
    }
}

} // verus!
