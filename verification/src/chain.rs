//! Chains: stones of one colour that hang together.

use vstd::prelude::*;
use crate::game::{Board, State};
use crate::mov::{Intersection, Move};
use crate::rules::{breathes, closed_off, joins, vacant, Group};
use crate::utils::adjacencies::has_vacant_neighbour;
use crate::utils::bounds::{adjacent, is_adjacent, point, Point};

verus! {

/// A group of stones of one colour, connected through orthogonal
/// adjacency. The board owns its chains; a chain is no more than its
/// member positions.
#[derive(Debug, PartialEq, Eq)]
pub struct Chain {
    pub moves: Vec<Move>,
}

/// The grid points on which the given moves stand.
pub open spec fn points_of(moves: Seq<Move>) -> Set<Point> {
    Set::new(
        |q: Point| exists|i: int| 0 <= i < moves.len() && point(#[trigger] moves[i].intersection) == q,
    )
}

/// Moves on pairwise different intersections cover as many points as
/// there are moves.
pub proof fn lemma_distinct_moves_counted(moves: Seq<Move>)
    requires
        forall|i: int, j: int|
            0 <= i < j < moves.len() ==> (#[trigger] moves[i]).intersection != (
            #[trigger] moves[j]).intersection,
    ensures
        points_of(moves).finite(),
        points_of(moves).len() == moves.len(),
    decreases moves.len(),
{
    if moves.len() == 0 {
        assert(points_of(moves) =~= Set::<Point>::empty());
    } else {
        let front = moves.drop_last();
        let last = point(moves.last().intersection);
        lemma_distinct_moves_counted(front);
        assert(!points_of(front).contains(last)) by {
            if points_of(front).contains(last) {
                let i = choose|i: int|
                    0 <= i < front.len() && point(#[trigger] front[i].intersection) == last;
                assert(moves[i].intersection != moves[moves.len() - 1].intersection);
            }
        }
        assert(points_of(moves) =~= points_of(front).insert(last)) by {
            assert forall|q: Point| points_of(front).insert(last).contains(q) implies points_of(
                moves,
            ).contains(q) by {
                if q == last {
                    assert(point(moves[moves.len() - 1].intersection) == q);
                } else {
                    let i = choose|i: int|
                        0 <= i < front.len() && point(#[trigger] front[i].intersection) == q;
                    assert(point(moves[i].intersection) == q);
                }
            }
            assert forall|q: Point| points_of(moves).contains(q) implies points_of(front).insert(
                last,
            ).contains(q) by {
                let i = choose|i: int|
                    0 <= i < moves.len() && point(#[trigger] moves[i].intersection) == q;
                if i < front.len() {
                    assert(point(front[i].intersection) == q);
                }
            }
        }
    }
}

impl View for Chain {
    type V = Group;

    open spec fn view(&self) -> Group {
        Group { stone: self.moves@[0].stone, members: points_of(self.moves@) }
    }
}

/// The chains of a list as contracts see them, in the order of the list.
pub open spec fn views(chains: Seq<Chain>) -> Seq<Group> {
    Seq::new(chains.len(), |i: int| chains[i]@)
}

impl Chain {
    /// Whether the chain holds at least one stone, all its stones are of
    /// one colour, and no position occurs twice.
    pub open spec fn wf(&self) -> bool {
        &&& self.moves@.len() > 0
        &&& forall|i: int|
            0 <= i < self.moves@.len() ==> (#[trigger] self.moves@[i]).stone == self.moves@[0].stone
        &&& forall|i: int, j: int|
            0 <= i < j < self.moves@.len() ==> (#[trigger] self.moves@[i]).intersection != (
            #[trigger] self.moves@[j]).intersection
    }

    /// A well-formed chain holds one move for each point that it covers.
    pub proof fn lemma_len_counts_members(&self)
        requires
            self.wf(),
        ensures
            self@.members.finite(),
            self@.members.len() == self.moves@.len(),
    {
        lemma_distinct_moves_counted(self.moves@);
    }

    /// Whether some stone of the chain has the colour of `mov` and stands
    /// next to its intersection.
    pub open spec fn allies_beside(&self, mov: Move) -> bool {
        exists|i: int|
            0 <= i < self.moves@.len() && (#[trigger] self.moves@[i]).stone == mov.stone
                && adjacent(point(self.moves@[i].intersection), point(mov.intersection))
    }

    /// For a well-formed chain, to have an ally next to a move is to be
    /// joined by its stone.
    pub proof fn lemma_allies_beside_joins(&self, mov: Move)
        requires
            self.wf(),
        ensures
            self.allies_beside(mov) == joins(self@, point(mov.intersection), mov.stone),
    {
        let p = point(mov.intersection);
        if self.allies_beside(mov) {
            let i = choose|i: int|
                0 <= i < self.moves@.len() && (#[trigger] self.moves@[i]).stone == mov.stone
                    && adjacent(point(self.moves@[i].intersection), p);
            let m = point(self.moves@[i].intersection);
            assert(self@.members.contains(m) && adjacent(m, p));
        }
        if joins(self@, p, mov.stone) {
            let m = choose|m: Point| self@.members.contains(m) && #[trigger] adjacent(m, p);
            let i = choose|i: int|
                0 <= i < self.moves@.len() && point(#[trigger] self.moves@[i].intersection) == m;
            assert(self.moves@[i].stone == mov.stone);
        }
    }

    /// Tells whether a stone of the chain has the colour of `mov` and
    /// stands next to its intersection, whatever the board holds there.
    pub fn is_beside(&self, mov: &Move) -> (beside: bool)
        ensures
            beside == self.allies_beside(*mov),
    {
        let mut i: usize = 0;
        while i < self.moves.len()
            invariant
                i <= self.moves@.len(),
                forall|k: int|
                    0 <= k < i ==> !((#[trigger] self.moves@[k]).stone == mov.stone && adjacent(
                        point(self.moves@[k].intersection),
                        point(mov.intersection),
                    )),
            decreases self.moves@.len() - i,
        {
            let member = self.moves[i];
            if member.stone == mov.stone && is_adjacent(&member.intersection, &mov.intersection) {
                return true;
            }
            i += 1;
        }
        false
    }

    /// Tells whether `mov`, once its stone is on the board, is connected to
    /// this chain: the board holds a stone on the move's intersection, and
    /// a stone of the chain with the move's colour stands next to it.
    pub fn move_is_connected(&self, mov: &Move, board: &Board) -> (connected: bool)
        ensures
            connected == (board@.state_at(point(mov.intersection)) matches Some(State::Stone(_))
                && self.allies_beside(*mov)),
    {
        match board.read(mov.intersection) {
            Some(State::Stone(_)) => self.is_beside(mov),
            _ => false,
        }
    }

    /// Tells whether the chain has a liberty: a vacant point of the board
    /// next to one of its stones.
    pub fn has_liberties(&self, board: &Board) -> (alive: bool)
        ensures
            alive == board@.alive(self@),
    {
        self.has_liberties_besides(board, &None)
    }

    /// Tells whether the chain has a liberty other than `shut`.
    pub fn has_liberties_besides(&self, board: &Board, shut: &Option<Intersection>) -> (alive: bool)
        ensures
            alive == breathes(
                closed_off(board@.stones.dom(), *shut),
                board@.size,
                self@.members,
            ),
    {
        let ghost occupied = closed_off(board@.stones.dom(), *shut);
        let mut i: usize = 0;
        while i < self.moves.len()
            invariant
                i <= self.moves@.len(),
                occupied == closed_off(board@.stones.dom(), *shut),
                forall|k: int, q: Point|
                    0 <= k < i && #[trigger] adjacent(point(self.moves@[k].intersection), q)
                        ==> !vacant(occupied, board@.size, q),
            decreases self.moves@.len() - i,
        {
            if has_vacant_neighbour(&self.moves[i].intersection, board, shut) {
                proof {
                    let m = point(self.moves@[i as int].intersection);
                    let q = choose|q: Point| #[trigger]
                        adjacent(m, q) && vacant(occupied, board@.size, q);
                    assert(self@.members.contains(m) && adjacent(m, q) && vacant(
                        occupied,
                        board@.size,
                        q,
                    ));
                }
                return true;
            }
            i += 1;
        }
        proof {
            assert forall|m: Point, q: Point|
                self@.members.contains(m) && #[trigger] adjacent(m, q) implies !vacant(
                occupied,
                board@.size,
                q,
            ) by {
                let k = choose|k: int|
                    0 <= k < self.moves@.len() && point(#[trigger] self.moves@[k].intersection)
                        == m;
                assert(adjacent(point(self.moves@[k].intersection), q));
            }
        }
        false
    }
}

} // verus!
