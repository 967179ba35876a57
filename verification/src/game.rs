//! The board: its stones, its chains, and how a move changes them.

use vstd::prelude::*;
use crate::chain::{views, Chain};
use crate::mov::{Interaction, Intersection, Move, Stone};
use crate::preservation::lemma_play_keeps_wf;
use crate::rules::{joins, separate, stays_apart, Group, Position};
use crate::sequences::lemma_filter_skip;
use crate::states::BoardStates;
use crate::utils::bounds::{is_within_bounds, point, Point};

verus! {

/// The side length of a board.
pub type BoardSize = i8;

/// What an intersection of the board holds.
#[derive(Debug, Clone, Copy, PartialEq, Eq, Structural)]
pub enum State {
    Vacant,
    Stone(Stone),
}

/// A board of fixed size with the stones on it and the chains they form.
#[derive(Debug)]
pub struct Board {
    pub board_states: BoardStates,
    pub size: BoardSize,
    pub chains: Vec<Chain>,
}

impl View for Board {
    type V = Position;

    open spec fn view(&self) -> Position {
        Position {
            size: self.size as int,
            stones: self.board_states@,
            chains: views(self.chains@),
        }
    }
}

impl Board {
    /// Whether the board is in a state that play can reach: the chains are
    /// well formed and partition the stones into maximal connected groups,
    /// each with a liberty.
    pub open spec fn wf(&self) -> bool {
        &&& self@.wf()
        &&& forall|i: int| 0 <= i < self.chains@.len() ==> (#[trigger] self.chains@[i]).wf()
    }

    /// An empty board of the given size, or `None` if the size is not positive.
    pub fn create(size: BoardSize) -> (made: Option<Board>)
        ensures
            size >= 1 ==> made is Some && made->0.wf() && made->0@ == Position::empty(size as int),
            size < 1 ==> made is None,
    {
        if size < 1 {
            return None;
        }
        let board = Board { board_states: BoardStates::new(), size, chains: Vec::new() };
        assert(board@.chains =~= Seq::empty());
        Some(board)
    }

    /// What the given intersection holds, or `None` if it is off the board.
    pub fn read(&self, intersection: Intersection) -> (state: Option<State>)
        ensures
            state == self@.state_at(point(intersection)),
    {
        if is_within_bounds(&intersection, &self.size) {
            return match self.board_states.get(&intersection) {
                Some(stone) => Some(State::Stone(stone)),
                None => Some(State::Vacant),
            };
        }
        None
    }

    /// Submits a move. A move that the rules reject leaves the board as it
    /// was. A legal move puts the stone on the board, merges it with the
    /// chains of its colour next to it, and takes off every chain of the
    /// other colour that it leaves without a liberty.
    pub fn update(&mut self, mov: &Move) -> (outcome: Interaction)
        requires
            old(self).wf(),
        ensures
            outcome == old(self)@.verdict(point(mov.intersection), mov.stone),
            final(self)@ == old(self)@.step(point(mov.intersection), mov.stone),
            outcome != Interaction::Legal ==> *final(self) == *old(self),
            final(self).wf(),
    {
        if let Interaction::Illegal(illegal) = mov.is_prohibited(self) {
            return Interaction::Illegal(illegal);
        }
        let ghost p = point(mov.intersection);
        let ghost c = mov.stone;
        let ghost before = self@;
        proof {
            assert forall|i: int| 0 <= i < before.chains.len() implies !(
            #[trigger] before.chains[i]).members.contains(p) by {
                assert(before.sound(before.chains[i]));
            }
        }
        self.board_states.insert(mov.intersection, mov.stone);
        let ghost loaded = self@;
        self.merge(mov);
        proof {
            assert(loaded.chains == before.chains);
            assert(loaded.joined(p, c) =~= before.joined(p, c));
            assert(self@ == before.placed(p, c));
        }
        self.capture(mov);
        proof {
            lemma_play_keeps_wf(before, p, c);
        }
        Interaction::Legal
    }

    /// Lists, in ascending order, the indices of the chains that have no
    /// liberty on the board as it stands.
    pub fn get_dead_chains(&self) -> (dead: Vec<usize>)
        ensures
            forall|k: int|
                0 <= k < dead@.len() ==> (#[trigger] dead@[k]) < self.chains@.len() && !self@.alive(
                    self@.chains[dead@[k] as int],
                ),
            forall|j: int, k: int| 0 <= j < k < dead@.len() ==> dead@[j] < dead@[k],
            forall|i: int|
                0 <= i < self.chains@.len() && !self@.alive(#[trigger] self@.chains[i])
                    ==> dead@.contains(i as usize),
    {
        let mut dead: Vec<usize> = Vec::new();
        let mut index: usize = 0;
        while index < self.chains.len()
            invariant
                index <= self.chains@.len(),
                forall|k: int|
                    0 <= k < dead@.len() ==> (#[trigger] dead@[k]) < index && !self@.alive(
                        self@.chains[dead@[k] as int],
                    ),
                forall|j: int, k: int| 0 <= j < k < dead@.len() ==> dead@[j] < dead@[k],
                forall|i: int|
                    0 <= i < index && !self@.alive(#[trigger] self@.chains[i]) ==> dead@.contains(
                        i as usize,
                    ),
            decreases self.chains@.len() - index,
        {
            if !self.chains[index].has_liberties(self) {
                let ghost earlier = dead@;
                dead.push(index);
                assert(dead@[earlier.len() as int] == index);
                assert forall|i: int|
                    0 <= i < index + 1 && !self@.alive(
                        #[trigger] self@.chains[i],
                    ) implies dead@.contains(i as usize) by {
                    if i < index {
                        let k = choose|k: int| 0 <= k < earlier.len() && earlier[k] == i as usize;
                        assert(dead@[k] == i as usize);
                    }
                }
            }
            index += 1;
        }
        dead
    }

    /// Gathers the stone of `mov` and every chain that it joins into one
    /// chain at the end of the list. The other chains keep their order.
    fn merge(&mut self, mov: &Move)
        requires
            old(self)@.state_at(point(mov.intersection)) matches Some(State::Stone(_)),
            forall|i: int| 0 <= i < old(self).chains@.len() ==> (#[trigger] old(self).chains@[i]).wf(),
            forall|i: int, j: int|
                0 <= i < old(self)@.chains.len() && 0 <= j < old(self)@.chains.len() && i != j
                    ==> separate(#[trigger] old(self)@.chains[i], #[trigger] old(self)@.chains[j]),
            forall|i: int|
                0 <= i < old(self)@.chains.len() ==> !(#[trigger] old(self)@.chains[i]).members.contains(
                    point(mov.intersection),
                ),
        ensures
            final(self).size == old(self).size,
            final(self).board_states == old(self).board_states,
            final(self)@.chains == old(self)@.chains.filter(
                stays_apart(point(mov.intersection), mov.stone),
            ).push(
                Group {
                    stone: mov.stone,
                    members: old(self)@.joined(point(mov.intersection), mov.stone),
                },
            ),
            forall|i: int| 0 <= i < final(self).chains@.len() ==> (#[trigger] final(self).chains@[i]).wf(),
    {
        let ghost p = point(mov.intersection);
        let ghost c = mov.stone;
        let ghost start = *self;
        let ghost olds = self@.chains;
        let ghost n = olds.len() as int;
        let mut moves: Vec<Move> = Vec::new();
        moves.push(*mov);
        let mut merged = Chain { moves };
        assert(merged@.members =~= Set::new(
            |q: Point|
                q == p || exists|k: int|
                    n <= k < n && joins(#[trigger] olds[k], p, c) && olds[k].members.contains(q),
        )) by {
            assert(point(merged.moves@[0].intersection) == p);
        }
        let mut i: usize = self.chains.len();
        assert(self@.chains =~= olds.take(i as int) + olds.skip(i as int).filter(stays_apart(p, c))) by {
            reveal(Seq::filter);
            assert(olds.skip(i as int) =~= Seq::<Group>::empty());
        }
        while i > 0
            invariant
                i <= self.chains@.len(),
                n == olds.len(),
                olds == views(start.chains@),
                p == point(mov.intersection),
                c == mov.stone,
                self.size == start.size,
                self.board_states == start.board_states,
                self@.state_at(p) matches Some(State::Stone(_)),
                self.chains@.take(i as int) == start.chains@.take(i as int),
                i <= n,
                forall|k: int| 0 <= k < self.chains@.len() ==> (#[trigger] self.chains@[k]).wf(),
                forall|k: int, j: int|
                    0 <= k < n && 0 <= j < n && k != j ==> separate(
                        #[trigger] olds[k],
                        #[trigger] olds[j],
                    ),
                forall|k: int| 0 <= k < n ==> !(#[trigger] olds[k]).members.contains(p),
                self@.chains == olds.take(i as int) + olds.skip(i as int).filter(stays_apart(p, c)),
                merged.wf(),
                merged.moves@[0] == *mov,
                merged@.members == Set::new(
                    |q: Point|
                        q == p || exists|k: int|
                            i <= k < n && joins(#[trigger] olds[k], p, c) && olds[k].members.contains(
                                q,
                            ),
                ),
            decreases i,
        {
            i -= 1;
            let ghost before = self.chains@;
            let ghost was = merged;
            assert(before[i as int] == start.chains@[i as int]) by {
                assert(before.take(i + 1)[i as int] == start.chains@.take(i + 1)[i as int]);
            }
            assert(before[i as int]@ == olds[i as int]);
            proof {
                before[i as int].lemma_allies_beside_joins(*mov);
                lemma_filter_skip(olds, stays_apart(p, c), i as int);
                assert(olds.take(i + 1) =~= olds.take(i as int).push(olds[i as int]));
            }
            if self.chains[i].move_is_connected(mov, self) {
                let mut gone = self.chains.remove(i);
                merged.moves.append(&mut gone.moves);
                proof {
                    let g = olds[i as int];
                    let tail = before[i as int].moves@;
                    assert(merged.moves@ == was.moves@ + tail);
                    let rest = olds.skip(i + 1).filter(stays_apart(p, c));
                    assert(views(before) == olds.take(i + 1) + rest);
                    assert(views(self.chains@) =~= views(before).remove(i as int));
                    assert((olds.take(i + 1) + rest).remove(i as int) =~= olds.take(i as int)
                        + rest);
                    assert(!stays_apart(p, c)(olds[i as int]));
                    assert(olds.skip(i as int).filter(stays_apart(p, c)) == rest);
                    assert forall|a: int, b: int|
                        0 <= a < b < merged.moves@.len() implies (
                    #[trigger] merged.moves@[a]).intersection != (
                    #[trigger] merged.moves@[b]).intersection by {
                        if b < was.moves@.len() {
                            assert(was.moves@[a].intersection != was.moves@[b].intersection);
                        } else if a >= was.moves@.len() {
                            let a2 = a - was.moves@.len();
                            let b2 = b - was.moves@.len();
                            assert(tail[a2].intersection != tail[b2].intersection);
                        } else {
                            let b2 = b - was.moves@.len();
                            let q = point(was.moves@[a].intersection);
                            assert(q == point(merged.moves@[a].intersection));
                            assert(was@.members.contains(q));
                            assert(point(tail[b2].intersection) == point(
                                merged.moves@[b].intersection,
                            ));
                            assert(g.members.contains(point(tail[b2].intersection)));
                            if q != p {
                                let k = choose|k: int|
                                    i + 1 <= k < n && joins(#[trigger] olds[k], p, c)
                                        && olds[k].members.contains(q);
                                assert(separate(olds[i as int], olds[k]));
                            }
                        }
                    }
                    assert forall|a: int| 0 <= a < merged.moves@.len() implies (
                    #[trigger] merged.moves@[a]).stone == merged.moves@[0].stone by {
                        if a < was.moves@.len() {
                            assert(was.moves@[a].stone == was.moves@[0].stone);
                        } else {
                            let a2 = a - was.moves@.len();
                            assert(tail[a2].stone == tail[0].stone);
                        }
                    }
                    assert(merged@.members =~= Set::new(
                        |q: Point|
                            q == p || exists|k: int|
                                i <= k < n && joins(#[trigger] olds[k], p, c)
                                    && olds[k].members.contains(q),
                    )) by {
                        assert forall|q: Point| merged@.members.contains(q) implies (q == p
                            || exists|k: int|
                            i <= k < n && joins(#[trigger] olds[k], p, c)
                                && olds[k].members.contains(q)) by {
                            let a = choose|a: int|
                                0 <= a < merged.moves@.len() && point(
                                    #[trigger] merged.moves@[a].intersection,
                                ) == q;
                            if a < was.moves@.len() {
                                assert(point(was.moves@[a].intersection) == q);
                                assert(was@.members.contains(q));
                                if q != p {
                                    let k = choose|k: int|
                                        i + 1 <= k < n && joins(#[trigger] olds[k], p, c)
                                            && olds[k].members.contains(q);
                                    assert(joins(olds[k], p, c) && olds[k].members.contains(q));
                                }
                            } else {
                                let a2 = a - was.moves@.len();
                                assert(point(tail[a2].intersection) == q);
                                assert(g.members.contains(q));
                                assert(joins(olds[i as int], p, c) && olds[i as int].members.contains(q));
                            }
                        }
                        assert forall|q: Point|
                            (q == p || exists|k: int|
                                i <= k < n && joins(#[trigger] olds[k], p, c)
                                    && olds[k].members.contains(q)) implies merged@.members.contains(
                            q,
                        ) by {
                            if q == p {
                                assert(point(merged.moves@[0].intersection) == q);
                            } else {
                                let k = choose|k: int|
                                    i <= k < n && joins(#[trigger] olds[k], p, c)
                                        && olds[k].members.contains(q);
                                if k == i {
                                    let a2 = choose|a2: int|
                                        0 <= a2 < tail.len() && point(
                                            #[trigger] tail[a2].intersection,
                                        ) == q;
                                    assert(point(
                                        merged.moves@[was.moves@.len() + a2].intersection,
                                    ) == q);
                                } else {
                                    assert(was@.members.contains(q));
                                    let a = choose|a: int|
                                        0 <= a < was.moves@.len() && point(
                                            #[trigger] was.moves@[a].intersection,
                                        ) == q;
                                    assert(point(merged.moves@[a].intersection) == q);
                                }
                            }
                        }
                    }
                    assert(self.chains@.take(i as int) =~= start.chains@.take(i as int));
                }
            } else {
                proof {
                    assert(merged@.members =~= Set::new(
                        |q: Point|
                            q == p || exists|k: int|
                                i <= k < n && joins(#[trigger] olds[k], p, c)
                                    && olds[k].members.contains(q),
                    ));
                    assert(self@.chains =~= olds.take(i as int) + olds.skip(i as int).filter(
                        stays_apart(p, c),
                    ));
                    assert(self.chains@.take(i as int) =~= start.chains@.take(i as int));
                }
            }
        }
        let ghost kept = self.chains@;
        self.chains.push(merged);
        proof {
            assert(olds.skip(0) =~= olds);
            assert(olds.take(0) + olds.filter(stays_apart(p, c)) =~= olds.filter(
                stays_apart(p, c),
            ));
            assert(merged@.members =~= start@.joined(p, c));
            assert(self@.chains =~= olds.filter(stays_apart(p, c)).push(
                Group { stone: c, members: start@.joined(p, c) },
            ));
        }
    }

    /// Takes off the board every chain that the stone of `mov`, already
    /// placed, leaves without a liberty: chains of the other colour next to
    /// it. The chains that stay keep their order.
    fn capture(&mut self, mov: &Move)
        requires
            forall|i: int| 0 <= i < old(self).chains@.len() ==> (#[trigger] old(self).chains@[i]).wf(),
        ensures
            final(self)@ == old(self)@.swept(point(mov.intersection), mov.stone),
            forall|i: int| 0 <= i < final(self).chains@.len() ==> (#[trigger] final(self).chains@[i]).wf(),
    {
        let ghost p = point(mov.intersection);
        let ghost c = mov.stone;
        let ghost start = *self;
        let ghost mid = self@;
        let ghost olds = self@.chains;
        let ghost n = olds.len() as int;
        let dead = self.get_dead_chains();
        let foe = Move { intersection: mov.intersection, stone: mov.stone.opponent() };
        let mut i: usize = self.chains.len();
        let mut d: usize = dead.len();
        proof {
            reveal(Seq::filter);
            assert(olds.skip(i as int) =~= Seq::<Group>::empty());
            assert(self@.chains =~= olds.take(i as int) + olds.skip(i as int).filter(
                mid.survives(p, c),
            ));
            assert(self.board_states@ =~= mid.stones.remove_keys(
                Set::new(
                    |q: Point|
                        exists|k: int|
                            i <= k < n && mid.stifled(#[trigger] olds[k], p, c)
                                && olds[k].members.contains(q),
                ),
            ));
        }
        while i > 0
            invariant
                i <= self.chains@.len(),
                i <= n,
                d <= dead@.len(),
                n == olds.len(),
                mid == start@,
                olds == views(start.chains@),
                p == point(mov.intersection),
                c == mov.stone,
                foe.intersection == mov.intersection,
                foe.stone == c.spec_opponent(),
                self.size == start.size,
                self.chains@.take(i as int) == start.chains@.take(i as int),
                forall|k: int| 0 <= k < self.chains@.len() ==> (#[trigger] self.chains@[k]).wf(),
                forall|k: int| 0 <= k < n ==> (#[trigger] start.chains@[k]).wf(),
                forall|k: int|
                    0 <= k < dead@.len() ==> (#[trigger] dead@[k]) < n && !mid.alive(
                        olds[dead@[k] as int],
                    ),
                forall|j: int, k: int| 0 <= j < k < dead@.len() ==> dead@[j] < dead@[k],
                forall|k: int|
                    0 <= k < n && !mid.alive(#[trigger] olds[k]) ==> dead@.contains(k as usize),
                forall|t: int| 0 <= t < d ==> (#[trigger] dead@[t]) < i,
                forall|t: int| d <= t < dead@.len() ==> (#[trigger] dead@[t]) >= i,
                self@.chains == olds.take(i as int) + olds.skip(i as int).filter(
                    mid.survives(p, c),
                ),
                self.board_states@ == mid.stones.remove_keys(
                    Set::new(
                        |q: Point|
                            exists|k: int|
                                i <= k < n && mid.stifled(#[trigger] olds[k], p, c)
                                    && olds[k].members.contains(q),
                    ),
                ),
            decreases i,
        {
            i -= 1;
            let ghost before = self.chains@;
            let ghost base = self.board_states@;
            let ghost d_was = d;
            let lifeless = d > 0 && dead[d - 1] == i;
            if lifeless {
                d -= 1;
            }
            proof {
                assert(before[i as int] == start.chains@[i as int]) by {
                    assert(before.take(i + 1)[i as int] == start.chains@.take(i + 1)[i as int]);
                }
                assert(before[i as int]@ == olds[i as int]);
                before[i as int].lemma_allies_beside_joins(foe);
                lemma_filter_skip(olds, mid.survives(p, c), i as int);
                assert(olds.take(i + 1) =~= olds.take(i as int).push(olds[i as int]));
                if !mid.alive(olds[i as int]) {
                    let t = choose|t: int| 0 <= t < dead@.len() && dead@[t] == i as usize;
                    assert(t < d_was);
                    if t < d_was - 1 {
                        assert(dead@[t] < dead@[d_was - 1]);
                    }
                }
                assert(lifeless == !mid.alive(olds[i as int]));
                assert forall|t: int| 0 <= t < d implies (#[trigger] dead@[t]) < i by {
                    if d_was > 0 && t < d_was - 1 {
                        assert(dead@[t] < dead@[d_was - 1]);
                    }
                }
            }
            if lifeless && self.chains[i].is_beside(&foe) {
                let gone = self.chains.remove(i);
                proof {
                    let rest = olds.skip(i + 1).filter(mid.survives(p, c));
                    assert(views(before) == olds.take(i + 1) + rest);
                    assert(views(self.chains@) =~= views(before).remove(i as int));
                    assert((olds.take(i + 1) + rest).remove(i as int) =~= olds.take(i as int)
                        + rest);
                    assert(mid.stifled(olds[i as int], p, c));
                    assert(!mid.survives(p, c)(olds[i as int]));
                    assert(olds.skip(i as int).filter(mid.survives(p, c)) == rest);
                    assert(self.chains@.take(i as int) =~= start.chains@.take(i as int));
                }
                let mut j: usize = 0;
                assert(self.board_states@ =~= base.remove_keys(
                    Set::new(
                        |q: Point|
                            exists|l: int|
                                0 <= l < j && point(#[trigger] gone.moves@[l].intersection) == q,
                    ),
                ));
                while j < gone.moves.len()
                    invariant
                        j <= gone.moves@.len(),
                        self.size == start.size,
                        self.chains@ == before.remove(i as int),
                        self.board_states@ == base.remove_keys(
                            Set::new(
                                |q: Point|
                                    exists|l: int|
                                        0 <= l < j && point(
                                            #[trigger] gone.moves@[l].intersection,
                                        ) == q,
                            ),
                        ),
                    decreases gone.moves@.len() - j,
                {
                    let ghost so_far = self.board_states@;
                    self.board_states.remove(&gone.moves[j].intersection);
                    j += 1;
                    assert(self.board_states@ =~= base.remove_keys(
                        Set::new(
                            |q: Point|
                                exists|l: int|
                                    0 <= l < j && point(#[trigger] gone.moves@[l].intersection)
                                        == q,
                        ),
                    )) by {
                        assert(point(gone.moves@[j - 1].intersection) == point(
                            gone.moves@[j - 1].intersection,
                        ));
                    }
                }
                proof {
                    let g = olds[i as int];
                    assert(gone@ == g);
                    assert(self.board_states@ =~= mid.stones.remove_keys(
                        Set::new(
                            |q: Point|
                                exists|k: int|
                                    i <= k < n && mid.stifled(#[trigger] olds[k], p, c)
                                        && olds[k].members.contains(q),
                        ),
                    )) by {
                        assert forall|q: Point| g.members.contains(q) implies exists|k: int|
                            i <= k < n && mid.stifled(#[trigger] olds[k], p, c)
                                && olds[k].members.contains(q) by {
                            assert(mid.stifled(olds[i as int], p, c) && olds[i as int].members.contains(q));
                        }
                    }
                }
            } else {
                proof {
                    assert(!mid.stifled(olds[i as int], p, c));
                    assert(self@.chains =~= olds.take(i as int) + olds.skip(i as int).filter(
                        mid.survives(p, c),
                    ));
                    assert(self.chains@.take(i as int) =~= start.chains@.take(i as int));
                    assert(self.board_states@ =~= mid.stones.remove_keys(
                        Set::new(
                            |q: Point|
                                exists|k: int|
                                    i <= k < n && mid.stifled(#[trigger] olds[k], p, c)
                                        && olds[k].members.contains(q),
                        ),
                    ));
                }
            }
        }
        proof {
            assert(olds.skip(0) =~= olds);
            assert(olds.take(0) + olds.filter(mid.survives(p, c)) =~= olds.filter(
                mid.survives(p, c),
            ));
            assert(self.board_states@ =~= mid.stones.remove_keys(mid.taken(p, c)));
        }
    }
}

} // verus!
