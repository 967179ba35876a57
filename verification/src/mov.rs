//! Stones, moves and the verdicts a move can receive.

use vstd::prelude::*;
use crate::game::{Board, State};
use crate::legality::{
    lemma_alone_and_shut_in, lemma_keeps_liberty_cases, lemma_suicide_criterion,
};
use crate::rules::{breathes, joins, vacant};
use crate::utils::adjacencies::{adjacencies, has_vacant_neighbour, lemma_adjacencies_cover};
use crate::utils::bounds::{adjacent, is_within_bounds, on_board, point, Point};

verus! {

/// The colour of a stone.
#[derive(Debug, Clone, Copy, PartialEq, Eq, Structural)]
pub enum Stone {
    Black,
    White,
}

/// A rule of play that a move can break.
#[derive(Debug, Clone, Copy, PartialEq, Eq, Structural)]
pub enum Rule {
    Suicide,
    RepeatMove,
}

/// Why a move was rejected.
#[derive(Debug, Clone, Copy, PartialEq, Eq, Structural)]
pub enum Illegal {
    Rule(Rule),
    OutOfBounds,
}

/// The verdict on a move.
#[derive(Debug, Clone, Copy, PartialEq, Eq, Structural)]
pub enum Interaction {
    Illegal(Illegal),
    Legal,
}

/// A point of the grid, as 1-indexed `(x, y)` coordinates.
pub type Intersection = (i8, i8);

/// A proposed placement of one stone.
#[derive(Debug, Clone, Copy, PartialEq, Eq)]
pub struct Move {
    pub intersection: Intersection,
    pub stone: Stone,
}

impl Stone {
    /// The other colour.
    pub open spec fn spec_opponent(self) -> Stone {
        match self {
            Stone::Black => Stone::White,
            Stone::White => Stone::Black,
        }
    }

    /// The other colour.
    #[verifier::when_used_as_spec(spec_opponent)]
    pub fn opponent(self) -> (other: Stone)
        ensures
            other == self.spec_opponent(),
    {
        match self {
            Stone::Black => Stone::White,
            Stone::White => Stone::Black,
        }
    }
}

impl Move {
    /// Judges the move against the rules, in this order: the intersection
    /// must be on the board, it must hold no stone, and the move must not
    /// be suicide once its captures are resolved.
    pub fn is_prohibited(&self, board: &Board) -> (verdict: Interaction)
        requires
            board.wf(),
        ensures
            verdict == board@.verdict(point(self.intersection), self.stone),
    {
        if !is_within_bounds(&self.intersection, &board.size) {
            return Interaction::Illegal(Illegal::OutOfBounds);
        }
        if self.is_repeat(board) {
            return Interaction::Illegal(Illegal::Rule(Rule::RepeatMove));
        }
        proof {
            lemma_suicide_criterion(board@, point(self.intersection), self.stone);
        }
        if self.captures(board) {
            return Interaction::Legal;
        }
        if !self.has_liberties_or_allies(board) {
            proof {
                lemma_alone_and_shut_in(board@, point(self.intersection), self.stone);
            }
            return Interaction::Illegal(Illegal::Rule(Rule::Suicide));
        }
        if self.keeps_liberty(board) {
            Interaction::Legal
        } else {
            Interaction::Illegal(Illegal::Rule(Rule::Suicide))
        }
    }

    /// Tells whether the move's intersection already holds a stone.
    pub fn is_repeat(&self, board: &Board) -> (repeat: bool)
        ensures
            repeat == (on_board(point(self.intersection), board@.size)
                && board@.stones.contains_key(point(self.intersection))),
    {
        match board.read(self.intersection) {
            Some(State::Stone(_)) => true,
            _ => false,
        }
    }

    /// Tells whether some neighbour of the move's intersection is a vacant
    /// point of the board or holds a stone of the move's colour.
    pub fn has_liberties_or_allies(&self, board: &Board) -> (found: bool)
        ensures
            found == board@.liberties_or_allies(point(self.intersection), self.stone),
    {
        let around = adjacencies(&self.intersection, board);
        let mut j: usize = 0;
        while j < around.len()
            invariant
                j <= around.len(),
                around@ == crate::utils::adjacencies::spec_adjacencies(self.intersection, board),
                forall|l: int|
                    0 <= l < j ==> !(on_board(point(#[trigger] around@[l].1), board@.size) && (
                    board@.stones.contains_key(point(around@[l].1)) ==> board@.stones[point(
                        around@[l].1,
                    )] == self.stone)),
            decreases around.len() - j,
        {
            let (state, q) = around[j];
            let friendly = match state {
                Some(State::Vacant) => true,
                Some(State::Stone(stone)) => stone == self.stone,
                None => false,
            };
            proof {
                lemma_adjacencies_cover(self.intersection, board);
            }
            if friendly {
                assert(adjacent(point(self.intersection), point(q)));
                return true;
            }
            j += 1;
        }
        proof {
            lemma_adjacencies_cover(self.intersection, board);
            assert forall|q: Point| #[trigger]
                adjacent(point(self.intersection), q) && on_board(q, board@.size) implies !(
            board@.stones.contains_key(q) ==> board@.stones[q] == self.stone) by {
                let k = choose|k: int|
                    0 <= k < around@.len() && point((#[trigger] around@[k]).1) == q;
            }
        }
        false
    }

    /// Tells whether the move's stone would take the last liberty of a
    /// chain of the other colour.
    pub fn captures(&self, board: &Board) -> (any: bool)
        requires
            board.wf(),
        ensures
            any == board@.captures(point(self.intersection), self.stone),
    {
        let foe = Move { intersection: self.intersection, stone: self.stone.opponent() };
        let shut = Some(self.intersection);
        let mut i: usize = 0;
        while i < board.chains.len()
            invariant
                i <= board.chains@.len(),
                board.wf(),
                foe.intersection == self.intersection,
                foe.stone == self.stone.spec_opponent(),
                shut == Some(self.intersection),
                forall|k: int|
                    0 <= k < i ==> !board@.smothers(
                        #[trigger] board@.chains[k],
                        point(self.intersection),
                        self.stone,
                    ),
            decreases board.chains@.len() - i,
        {
            let chain = &board.chains[i];
            proof {
                chain.lemma_allies_beside_joins(foe);
                assert(board@.chains[i as int] == chain@);
            }
            if chain.is_beside(&foe) && !chain.has_liberties_besides(board, &shut) {
                return true;
            }
            i += 1;
        }
        false
    }

    /// Tells whether the move's stone, once placed, belongs to a chain
    /// with a liberty, before any capture is resolved.
    pub fn keeps_liberty(&self, board: &Board) -> (kept: bool)
        requires
            board.wf(),
        ensures
            kept == board@.keeps_liberty(point(self.intersection), self.stone),
    {
        proof {
            lemma_keeps_liberty_cases(board@, point(self.intersection), self.stone);
        }
        if has_vacant_neighbour(&self.intersection, board, &None) {
            return true;
        }
        let shut = Some(self.intersection);
        let mut i: usize = 0;
        while i < board.chains.len()
            invariant
                i <= board.chains@.len(),
                board.wf(),
                shut == Some(self.intersection),
                forall|k: int|
                    0 <= k < i ==> !(joins(
                        #[trigger] board@.chains[k],
                        point(self.intersection),
                        self.stone,
                    ) && breathes(
                        board@.stones.dom().insert(point(self.intersection)),
                        board@.size,
                        board@.chains[k].members,
                    )),
            decreases board.chains@.len() - i,
        {
            let chain = &board.chains[i];
            proof {
                chain.lemma_allies_beside_joins(*self);
                assert(board@.chains[i as int] == chain@);
            }
            if chain.is_beside(self) && chain.has_liberties_besides(board, &shut) {
                return true;
            }
            i += 1;
        }
        false
    }
}

} // verus!
