//! The rules of play, stated over mathematical boards.
//!
//! A [`Position`] is a board as contracts see it: its size, the stones on
//! it, and the chains those stones form. Everything here is specification:
//! what a liberty is, when a chain is captured, when a move is suicide, and
//! what the board looks like after a move.

use vstd::prelude::*;
use crate::connectivity::connected;
use crate::game::State;
use crate::mov::{Illegal, Interaction, Intersection, Rule, Stone};
use crate::utils::bounds::{adjacent, on_board, point, Point};

verus! {

/// A chain as contracts see it: one colour and the points it covers.
pub struct Group {
    pub stone: Stone,
    pub members: Set<Point>,
}

/// A board as contracts see it.
pub struct Position {
    pub size: int,
    pub stones: Map<Point, Stone>,
    pub chains: Seq<Group>,
}

/// Whether some point of `members` is orthogonally adjacent to `p`.
pub open spec fn touches(members: Set<Point>, p: Point) -> bool {
    exists|m: Point| members.contains(m) && #[trigger] adjacent(m, p)
}

/// Whether `q` is a point of the board that is not among the occupied ones.
pub open spec fn vacant(occupied: Set<Point>, size: int, q: Point) -> bool {
    on_board(q, size) && !occupied.contains(q)
}

/// Whether `members` has a liberty: a vacant point adjacent to one of them.
pub open spec fn breathes(occupied: Set<Point>, size: int, members: Set<Point>) -> bool {
    exists|m: Point, q: Point|
        members.contains(m) && #[trigger] adjacent(m, q) && vacant(occupied, size, q)
}

/// The occupied points together with `shut`, if a point is given: the
/// points that cannot serve as a liberty.
pub open spec fn closed_off(occupied: Set<Point>, shut: Option<Intersection>) -> Set<Point> {
    match shut {
        Some(at) => occupied.insert(point(at)),
        None => occupied,
    }
}

/// Whether a stone of colour `c` placed at `p` would become part of `g`.
pub open spec fn joins(g: Group, p: Point, c: Stone) -> bool {
    g.stone == c && touches(g.members, p)
}

/// The chains that a stone of colour `c` at `p` leaves as they are.
pub open spec fn stays_apart(p: Point, c: Stone) -> spec_fn(Group) -> bool {
    |g: Group| !joins(g, p, c)
}

/// Whether two chains share no point and, if of one colour, do not touch.
pub open spec fn separate(g: Group, h: Group) -> bool {
    &&& forall|q: Point| !(g.members.contains(q) && h.members.contains(q))
    &&& g.stone == h.stone ==> forall|x: Point, y: Point|
        g.members.contains(x) && h.members.contains(y) ==> !#[trigger] adjacent(x, y)
}

impl Position {
    /// The board of the given size with no stone on it.
    pub open spec fn empty(size: int) -> Position {
        Position { size, stones: Map::empty(), chains: Seq::empty() }
    }

    /// What the point `p` holds: nothing to report off the board, else a
    /// stone or a vacancy.
    pub open spec fn state_at(self, p: Point) -> Option<State> {
        if !on_board(p, self.size) {
            None
        } else if self.stones.contains_key(p) {
            Some(State::Stone(self.stones[p]))
        } else {
            Some(State::Vacant)
        }
    }

    /// Whether `g` has a liberty on this board.
    pub open spec fn alive(self, g: Group) -> bool {
        breathes(self.stones.dom(), self.size, g.members)
    }

    /// Whether every stone of `g` is on the board in the chain's colour and
    /// the chain hangs together.
    pub open spec fn sound(self, g: Group) -> bool {
        &&& forall|m: Point| #[trigger]
            g.members.contains(m) ==> self.stones.contains_key(m) && self.stones[m] == g.stone
        &&& connected(g.members)
    }

    /// Whether the chains partition the stones into maximal connected
    /// groups of one colour. Nothing is said here about liberties.
    pub open spec fn tidy(self) -> bool {
        &&& self.size >= 1
        &&& forall|p: Point| #[trigger] self.stones.contains_key(p) ==> on_board(p, self.size)
        &&& forall|i: int| 0 <= i < self.chains.len() ==> self.sound(#[trigger] self.chains[i])
        &&& forall|p: Point| #[trigger]
            self.stones.contains_key(p) ==> exists|i: int|
                0 <= i < self.chains.len() && (#[trigger] self.chains[i]).members.contains(p)
        &&& forall|i: int, j: int|
            0 <= i < self.chains.len() && 0 <= j < self.chains.len() && i != j ==> separate(
                #[trigger] self.chains[i],
                #[trigger] self.chains[j],
            )
    }

    /// The invariant of a board between moves: the chains partition the
    /// stones into maximal connected groups, and every chain has a liberty.
    pub open spec fn wf(self) -> bool {
        &&& self.tidy()
        &&& forall|i: int| 0 <= i < self.chains.len() ==> self.alive(#[trigger] self.chains[i])
    }

    /// The points of the chain that a stone of colour `c` at `p` belongs to
    /// once it is placed: `p` itself and every chain of that colour next to it.
    pub open spec fn joined(self, p: Point, c: Stone) -> Set<Point> {
        Set::new(
            |q: Point|
                q == p || exists|i: int|
                    0 <= i < self.chains.len() && joins(#[trigger] self.chains[i], p, c)
                        && self.chains[i].members.contains(q),
        )
    }

    /// The board with a stone of colour `c` put on `p` and the chains next
    /// to it of that colour merged with it, before any capture.
    pub open spec fn placed(self, p: Point, c: Stone) -> Position {
        Position {
            size: self.size,
            stones: self.stones.insert(p, c),
            chains: self.chains.filter(stays_apart(p, c)).push(
                Group { stone: c, members: self.joined(p, c) },
            ),
        }
    }

    /// Whether `g` is captured by a stone of colour `c` that now stands on
    /// `p`: it is of the other colour, next to `p`, and without a liberty.
    pub open spec fn stifled(self, g: Group, p: Point, c: Stone) -> bool {
        g.stone != c && touches(g.members, p) && !self.alive(g)
    }

    /// The chains that the stone of colour `c` on `p` does not capture.
    pub open spec fn survives(self, p: Point, c: Stone) -> spec_fn(Group) -> bool {
        |g: Group| !self.stifled(g, p, c)
    }

    /// The points of all chains that the stone of colour `c` on `p` captures.
    pub open spec fn taken(self, p: Point, c: Stone) -> Set<Point> {
        Set::new(
            |q: Point|
                exists|i: int|
                    0 <= i < self.chains.len() && self.stifled(#[trigger] self.chains[i], p, c)
                        && self.chains[i].members.contains(q),
        )
    }

    /// The board after the chains captured by the stone on `p` are removed.
    pub open spec fn swept(self, p: Point, c: Stone) -> Position {
        Position {
            size: self.size,
            stones: self.stones.remove_keys(self.taken(p, c)),
            chains: self.chains.filter(self.survives(p, c)),
        }
    }

    /// The board after a stone of colour `c` is placed on `p` and the
    /// captures that follow from it are resolved.
    pub open spec fn play(self, p: Point, c: Stone) -> Position {
        self.placed(p, c).swept(p, c)
    }

    /// Whether the stone's chain has a liberty as soon as the stone is
    /// placed, before any capture.
    pub open spec fn keeps_liberty(self, p: Point, c: Stone) -> bool {
        breathes(self.stones.dom().insert(p), self.size, self.joined(p, c))
    }

    /// Whether `g` is a chain of the other colour whose only liberty is `p`.
    pub open spec fn smothers(self, g: Group, p: Point, c: Stone) -> bool {
        g.stone != c && touches(g.members, p) && !breathes(
            self.stones.dom().insert(p),
            self.size,
            g.members,
        )
    }

    /// Whether a stone of colour `c` on `p` captures at least one chain.
    pub open spec fn captures(self, p: Point, c: Stone) -> bool {
        exists|i: int| 0 <= i < self.chains.len() && self.smothers(#[trigger] self.chains[i], p, c)
    }

    /// Whether `p` has a neighbour on the board that is vacant or holds a
    /// stone of colour `c`.
    pub open spec fn liberties_or_allies(self, p: Point, c: Stone) -> bool {
        exists|q: Point| #[trigger]
            adjacent(p, q) && on_board(q, self.size) && (self.stones.contains_key(q)
                ==> self.stones[q] == c)
    }

    /// Whether the stone's own chain is left without a liberty once the
    /// captures are resolved.
    pub open spec fn suicide(self, p: Point, c: Stone) -> bool {
        !breathes(self.play(p, c).stones.dom(), self.size, self.joined(p, c))
    }

    /// The verdict on placing a stone of colour `c` on `p`. The first rule
    /// that fails decides: bounds, then occupancy, then suicide.
    pub open spec fn verdict(self, p: Point, c: Stone) -> Interaction {
        if !on_board(p, self.size) {
            Interaction::Illegal(Illegal::OutOfBounds)
        } else if self.stones.contains_key(p) {
            Interaction::Illegal(Illegal::Rule(Rule::RepeatMove))
        } else if self.suicide(p, c) {
            Interaction::Illegal(Illegal::Rule(Rule::Suicide))
        } else {
            Interaction::Legal
        }
    }

    /// The board after the move is submitted: played if legal, else as before.
    pub open spec fn step(self, p: Point, c: Stone) -> Position {
        if self.verdict(p, c) == Interaction::Legal {
            self.play(p, c)
        } else {
            self
        }
    }
}

} // verus!
