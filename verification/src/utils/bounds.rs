//! Points of the grid and the bounds of a board.

use vstd::prelude::*;
use crate::game::BoardSize;
use crate::mov::Intersection;

verus! {

/// A grid point with unbounded coordinates, as contracts speak of it.
pub type Point = (int, int);

/// The grid point that an intersection names.
pub open spec fn point(intersection: Intersection) -> Point {
    (intersection.0 as int, intersection.1 as int)
}

/// Whether both coordinates of `p` lie in `1..=size`.
pub open spec fn on_board(p: Point, size: int) -> bool {
    1 <= p.0 <= size && 1 <= p.1 <= size
}

/// Whether `a` and `b` are one step apart along exactly one axis.
pub open spec fn adjacent(a: Point, b: Point) -> bool {
    ||| a.0 == b.0 && (a.1 == b.1 + 1 || b.1 == a.1 + 1)
    ||| a.1 == b.1 && (a.0 == b.0 + 1 || b.0 == a.0 + 1)
}

/// Tells whether two intersections are orthogonal neighbours.
pub fn is_adjacent(a: &Intersection, b: &Intersection) -> (beside: bool)
    ensures
        beside == adjacent(point(*a), point(*b)),
{
    let dx: i16 = a.0 as i16 - b.0 as i16;
    let dy: i16 = a.1 as i16 - b.1 as i16;
    (dx == 0 && (dy == 1 || dy == -1)) || (dy == 0 && (dx == 1 || dx == -1))
}

/// Tells whether an intersection lies on a board of the given size.
pub fn is_within_bounds(intersection: &Intersection, size: &BoardSize) -> (inside: bool)
    ensures
        inside == on_board(point(*intersection), *size as int),
{
    if (intersection.0 < 1 || intersection.1 < 1) || (intersection.0 > *size || intersection.1
        > *size) {
        return false;
    }
    true
}

} // verus!
