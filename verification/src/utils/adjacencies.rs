//! The orthogonal neighbours of an intersection.

use vstd::prelude::*;
use crate::game::{Board, State};
use crate::mov::Intersection;
use crate::rules::{closed_off, vacant};
use crate::states::nameable;
use crate::utils::bounds::{adjacent, on_board, point, Point};

verus! {

/// The intersection that names the grid point `p`.
pub open spec fn named(p: Point) -> Intersection {
    (p.0 as i8, p.1 as i8)
}

/// What `adjacencies` reports of the grid point `q`: one entry if an
/// intersection can name it, none otherwise.
pub open spec fn sighting(board: &Board, q: Point) -> Seq<(Option<State>, Intersection)> {
    if nameable(q) {
        seq![(board@.state_at(q), named(q))]
    } else {
        Seq::empty()
    }
}

/// The neighbours of `at` one step to the left, below, to the right and
/// above, in this order, each with what the board holds there.
pub open spec fn spec_adjacencies(at: Intersection, board: &Board) -> Seq<
    (Option<State>, Intersection),
> {
    let p = point(at);
    sighting(board, (p.0 - 1, p.1)) + sighting(board, (p.0, p.1 - 1)) + sighting(
        board,
        (p.0 + 1, p.1),
    ) + sighting(board, (p.0, p.1 + 1))
}

/// Every entry of the list is a neighbour with its state, and every point
/// of the board next to `at` is in the list.
pub proof fn lemma_adjacencies_cover(at: Intersection, board: &Board)
    ensures
        forall|k: int|
            0 <= k < spec_adjacencies(at, board).len() ==> {
                let entry = #[trigger] spec_adjacencies(at, board)[k];
                adjacent(point(at), point(entry.1)) && entry.0 == board@.state_at(point(entry.1))
            },
        forall|q: Point|
            #[trigger] adjacent(point(at), q) && on_board(q, board@.size) ==> exists|k: int|
                0 <= k < spec_adjacencies(at, board).len() && point(
                    (#[trigger] spec_adjacencies(at, board)[k]).1,
                ) == q,
{
    let p = point(at);
    let all = spec_adjacencies(at, board);
    let a = sighting(board, (p.0 - 1, p.1));
    let b = sighting(board, (p.0, p.1 - 1));
    let c = sighting(board, (p.0 + 1, p.1));
    let d = sighting(board, (p.0, p.1 + 1));
    assert forall|q: Point| #[trigger] adjacent(p, q) && on_board(q, board@.size) implies exists|
        k: int,
    |
        0 <= k < all.len() && point((#[trigger] all[k]).1) == q by {
        if q == (p.0 - 1, p.1) {
            assert(point(all[0].1) == q);
        } else if q == (p.0, p.1 - 1) {
            assert(point(all[a.len() as int].1) == q);
        } else if q == (p.0 + 1, p.1) {
            assert(point(all[(a.len() + b.len()) as int].1) == q);
        } else {
            assert(q == (p.0, p.1 + 1));
            assert(point(all[(a.len() + b.len() + c.len()) as int].1) == q);
        }
    }
}

/// Lists the orthogonal neighbours of `intersection` with the state of
/// each: `None` for a neighbour off the board. A neighbour whose
/// coordinate no intersection can hold is left out.
pub fn adjacencies(intersection: &Intersection, board: &Board) -> (around: Vec<
    (Option<State>, Intersection),
>)
    ensures
        around@ == spec_adjacencies(*intersection, board),
{
    let x = intersection.0;
    let y = intersection.1;
    let mut around: Vec<(Option<State>, Intersection)> = Vec::new();
    if x > i8::MIN {
        around.push((board.read((x - 1, y)), (x - 1, y)));
    }
    if y > i8::MIN {
        around.push((board.read((x, y - 1)), (x, y - 1)));
    }
    if x < i8::MAX {
        around.push((board.read((x + 1, y)), (x + 1, y)));
    }
    if y < i8::MAX {
        around.push((board.read((x, y + 1)), (x, y + 1)));
    }
    assert(around@ =~= spec_adjacencies(*intersection, board));
    around
}

/// Tells whether some neighbour of `at` is a vacant point of the board
/// other than `shut`.
pub fn has_vacant_neighbour(at: &Intersection, board: &Board, shut: &Option<Intersection>) -> (found:
    bool)
    ensures
        found == exists|q: Point| #[trigger]
            adjacent(point(*at), q) && vacant(
                closed_off(board@.stones.dom(), *shut),
                board@.size,
                q,
            ),
{
    let ghost occupied = closed_off(board@.stones.dom(), *shut);
    let around = adjacencies(at, board);
    let mut j: usize = 0;
    while j < around.len()
        invariant
            j <= around.len(),
            around@ == spec_adjacencies(*at, board),
            occupied == closed_off(board@.stones.dom(), *shut),
            forall|l: int| 0 <= l < j ==> !vacant(occupied, board@.size, point(#[trigger] around@[l].1)),
        decreases around.len() - j,
    {
        let (state, q) = around[j];
        let open = match state {
            Some(State::Vacant) => true,
            _ => false,
        };
        let barred = match shut {
            Some(s) => s.0 == q.0 && s.1 == q.1,
            None => false,
        };
        proof {
            lemma_adjacencies_cover(*at, board);
        }
        if open && !barred {
            assert(adjacent(point(*at), point(q)) && vacant(occupied, board@.size, point(q)));
            return true;
        }
        j += 1;
    }
    proof {
        lemma_adjacencies_cover(*at, board);
        assert forall|q: Point| #[trigger] adjacent(point(*at), q) implies !vacant(
            occupied,
            board@.size,
            q,
        ) by {
            if on_board(q, board@.size) {
                let k = choose|k: int|
                    0 <= k < around@.len() && point((#[trigger] around@[k]).1) == q;
                assert(!vacant(occupied, board@.size, point(around@[k].1)));
            }
        }
    }
    false
}

} // verus!
