//! The sparse record of which intersections hold a stone.

use vstd::prelude::*;
use std::collections::HashMap;
use crate::mov::{Intersection, Stone};
use crate::utils::bounds::{point, Point};

verus! {

broadcast use vstd::std_specs::hash::group_hash_axioms;

/// The key under which a grid point is filed: both coordinates shifted to
/// be non-negative and packed side by side.
pub open spec fn slot(p: Point) -> int {
    (p.0 + 128) * 256 + (p.1 + 128)
}

/// Whether both coordinates of `p` fit the type of an intersection's.
pub open spec fn nameable(p: Point) -> bool {
    i8::MIN <= p.0 <= i8::MAX && i8::MIN <= p.1 <= i8::MAX
}

/// Distinct points have distinct keys.
pub proof fn lemma_slot_injective(p: Point, q: Point)
    requires
        nameable(p),
        nameable(q),
        slot(p) == slot(q),
    ensures
        p == q,
{
}

/// A mapping from occupied intersections to the stone on each. An
/// intersection that is absent holds no stone.
#[derive(Debug)]
pub struct BoardStates {
    cells: HashMap<u16, Stone>,
}

impl View for BoardStates {
    type V = Map<Point, Stone>;

    closed spec fn view(&self) -> Map<Point, Stone> {
        Map::new(
            |p: Point| nameable(p) && self.cells@.contains_key(slot(p) as u16),
            |p: Point| self.cells@[slot(p) as u16],
        )
    }
}

impl BoardStates {
    fn key(at: &Intersection) -> (k: u16)
        ensures
            k == slot(point(*at)),
    {
        let x: i32 = at.0 as i32 + 128;
        let y: i32 = at.1 as i32 + 128;
        (x * 256 + y) as u16
    }

    /// The mapping with no stone in it.
    pub fn new() -> (states: BoardStates)
        ensures
            states@ == Map::<Point, Stone>::empty(),
    {
        let states = BoardStates { cells: HashMap::new() };
        assert(states@ =~= Map::<Point, Stone>::empty());
        states
    }

    /// The stone on `at`, if there is one.
    pub fn get(&self, at: &Intersection) -> (found: Option<Stone>)
        ensures
            found == if self@.contains_key(point(*at)) {
                Some(self@[point(*at)])
            } else {
                None
            },
    {
        let k = Self::key(at);
        match self.cells.get(&k) {
            Some(stone) => Some(*stone),
            None => None,
        }
    }

    /// Puts `stone` on `at`, replacing any stone that was there.
    pub fn insert(&mut self, at: Intersection, stone: Stone)
        ensures
            final(self)@ == old(self)@.insert(point(at), stone),
    {
        let k = Self::key(&at);
        self.cells.insert(k, stone);
        assert(self@ =~= old(self)@.insert(point(at), stone)) by {
            assert forall|q: Point| nameable(q) && q != point(at) implies slot(q) as u16 != k by {
                if slot(q) as u16 == k {
                    lemma_slot_injective(q, point(at));
                }
            }
        }
    }

    /// Takes the stone off `at`, if there is one.
    pub fn remove(&mut self, at: &Intersection)
        ensures
            final(self)@ == old(self)@.remove(point(*at)),
    {
        let k = Self::key(at);
        self.cells.remove(&k);
        assert(self@ =~= old(self)@.remove(point(*at))) by {
            assert forall|q: Point| nameable(q) && q != point(*at) implies slot(q) as u16 != k by {
                if slot(q) as u16 == k {
                    lemma_slot_injective(q, point(*at));
                }
            }
        }
    }
}

} // verus!
