use engine::chain::Chain;
use engine::game::{Board, State};
use engine::mov::{Illegal, Interaction, Move, Rule, Stone};
use engine::states::BoardStates;
use engine::utils::adjacencies::{adjacencies, has_vacant_neighbour};
use engine::utils::bounds::{is_adjacent, is_within_bounds};

const B: Stone = Stone::Black;
const W: Stone = Stone::White;

fn mv(x: i8, y: i8, stone: Stone) -> Move {
    Move { intersection: (x, y), stone }
}

fn play_all(board: &mut Board, moves: &[(i8, i8, Stone)]) {
    for &(x, y, stone) in moves {
        assert_eq!(board.update(&mv(x, y, stone)), Interaction::Legal, "move at ({}, {})", x, y);
    }
}

fn grid(board: &Board) -> Vec<Option<State>> {
    let mut cells = Vec::new();
    for x in 1..=board.size {
        for y in 1..=board.size {
            cells.push(board.read((x, y)));
        }
    }
    cells
}

fn chain_points(board: &Board) -> Vec<Vec<Move>> {
    board.chains.iter().map(|c| c.moves.clone()).collect()
}

fn sorted_points(chain: &Chain) -> Vec<(i8, i8)> {
    let mut points: Vec<(i8, i8)> = chain.moves.iter().map(|m| m.intersection).collect();
    points.sort();
    points
}

fn check_invariant(board: &Board) {
    let n = board.size;
    for x in 1..=n {
        for y in 1..=n {
            let holders: Vec<usize> = (0..board.chains.len())
                .filter(|&i| board.chains[i].moves.iter().any(|m| m.intersection == (x, y)))
                .collect();
            match board.read((x, y)) {
                Some(State::Stone(stone)) => {
                    assert_eq!(holders.len(), 1, "stone at ({}, {})", x, y);
                    let chain = &board.chains[holders[0]];
                    assert!(chain.moves.iter().all(|m| m.stone == stone));
                    for (dx, dy) in [(-1i8, 0i8), (1, 0), (0, -1), (0, 1)] {
                        let q = (x + dx, y + dy);
                        if board.read(q) == Some(State::Stone(stone)) {
                            assert!(chain.moves.iter().any(|m| m.intersection == q));
                        }
                    }
                }
                Some(State::Vacant) => assert!(holders.is_empty()),
                None => unreachable!(),
            }
        }
    }
    for chain in &board.chains {
        assert!(!chain.moves.is_empty());
        assert!(chain.has_liberties(board));
        let mut points = sorted_points(chain);
        points.dedup();
        assert_eq!(points.len(), chain.moves.len());
        let mut reached = vec![chain.moves[0].intersection];
        let mut next = 0;
        while next < reached.len() {
            let at = reached[next];
            next += 1;
            for m in &chain.moves {
                if is_adjacent(&at, &m.intersection) && !reached.contains(&m.intersection) {
                    reached.push(m.intersection);
                }
            }
        }
        assert_eq!(reached.len(), chain.moves.len());
    }
    assert_eq!(board.get_dead_chains(), Vec::<usize>::new());
}

#[test]
fn create_needs_a_positive_size() {
    assert!(Board::create(0).is_none());
    assert!(Board::create(-5).is_none());
    assert!(Board::create(i8::MIN).is_none());
    let one = Board::create(1).unwrap();
    assert_eq!(one.size, 1);
    assert!(one.chains.is_empty());
    assert_eq!(one.read((1, 1)), Some(State::Vacant));
    let largest = Board::create(i8::MAX).unwrap();
    assert_eq!(largest.size, 127);
    assert_eq!(largest.read((127, 127)), Some(State::Vacant));
}

#[test]
fn bounds_are_one_to_size_on_both_axes() {
    assert!(is_within_bounds(&(1, 1), &9));
    assert!(is_within_bounds(&(9, 9), &9));
    assert!(is_within_bounds(&(1, 9), &9));
    assert!(!is_within_bounds(&(0, 5), &9));
    assert!(!is_within_bounds(&(5, 0), &9));
    assert!(!is_within_bounds(&(10, 5), &9));
    assert!(!is_within_bounds(&(5, 10), &9));
    assert!(!is_within_bounds(&(-1, -1), &9));
    assert!(!is_within_bounds(&(1, 1), &0));
    assert!(!is_within_bounds(&(1, 1), &-3));
    assert!(is_within_bounds(&(127, 127), &127));
}

#[test]
fn adjacency_is_one_step_along_one_axis() {
    assert!(is_adjacent(&(3, 3), &(2, 3)));
    assert!(is_adjacent(&(3, 3), &(4, 3)));
    assert!(is_adjacent(&(3, 3), &(3, 2)));
    assert!(is_adjacent(&(3, 3), &(3, 4)));
    assert!(!is_adjacent(&(3, 3), &(3, 3)));
    assert!(!is_adjacent(&(3, 3), &(4, 4)));
    assert!(!is_adjacent(&(3, 3), &(5, 3)));
    assert!(is_adjacent(&(-128, 0), &(-127, 0)));
    assert!(is_adjacent(&(127, 127), &(127, 126)));
    assert!(!is_adjacent(&(-128, 0), &(127, 0)));
}

#[test]
fn read_tells_off_board_from_vacant() {
    let mut b = Board::create(9).unwrap();
    play_all(&mut b, &[(5, 5, W)]);
    assert_eq!(b.read((5, 5)), Some(State::Stone(W)));
    assert_eq!(b.read((5, 6)), Some(State::Vacant));
    assert_eq!(b.read((0, 5)), None);
    assert_eq!(b.read((5, 10)), None);
    assert_eq!(b.read((-128, 127)), None);
}

#[test]
fn adjacencies_lists_left_below_right_above() {
    let mut b = Board::create(9).unwrap();
    play_all(&mut b, &[(2, 1, B), (1, 2, W)]);
    assert_eq!(
        adjacencies(&(1, 1), &b),
        vec![
            (None, (0, 1)),
            (None, (1, 0)),
            (Some(State::Stone(B)), (2, 1)),
            (Some(State::Stone(W)), (1, 2)),
        ]
    );
    assert_eq!(
        adjacencies(&(5, 5), &b),
        vec![
            (Some(State::Vacant), (4, 5)),
            (Some(State::Vacant), (5, 4)),
            (Some(State::Vacant), (6, 5)),
            (Some(State::Vacant), (5, 6)),
        ]
    );
}

#[test]
fn adjacencies_at_the_limits_of_the_coordinates() {
    let b = Board::create(127).unwrap();
    assert_eq!(
        adjacencies(&(127, 127), &b),
        vec![(Some(State::Vacant), (126, 127)), (Some(State::Vacant), (127, 126))]
    );
    assert_eq!(
        adjacencies(&(-128, -128), &b),
        vec![(None, (-127, -128)), (None, (-128, -127))]
    );
    assert_eq!(
        adjacencies(&(-128, 5), &b),
        vec![(None, (-128, 4)), (None, (-127, 5)), (None, (-128, 6))]
    );
}

#[test]
fn vacant_neighbour_search_can_skip_one_point() {
    let mut b = Board::create(9).unwrap();
    play_all(&mut b, &[(2, 1, B)]);
    assert!(has_vacant_neighbour(&(1, 1), &b, &None));
    assert!(!has_vacant_neighbour(&(1, 1), &b, &Some((1, 2))));
    assert!(has_vacant_neighbour(&(1, 1), &b, &Some((7, 7))));
    assert!(!has_vacant_neighbour(&(20, 20), &b, &None));
}

#[test]
fn out_of_bounds_move_leaves_board_unchanged() {
    let mut b = Board::create(9).unwrap();
    play_all(&mut b, &[(1, 1, B), (2, 1, B), (5, 5, W)]);
    let cells = grid(&b);
    let chains = chain_points(&b);
    for at in [(0, 1), (1, 0), (10, 1), (1, 10), (-1, -1), (127, 127), (-128, 3), (0, 0)] {
        for stone in [B, W] {
            let m = Move { intersection: at, stone };
            assert_eq!(m.is_prohibited(&b), Interaction::Illegal(Illegal::OutOfBounds));
            assert_eq!(b.update(&m), Interaction::Illegal(Illegal::OutOfBounds));
            assert_eq!(grid(&b), cells);
            assert_eq!(chain_points(&b), chains);
        }
    }
}

#[test]
fn occupied_point_rejects_either_colour_and_leaves_board_unchanged() {
    let mut b = Board::create(9).unwrap();
    play_all(&mut b, &[(4, 4, B), (4, 5, W)]);
    let cells = grid(&b);
    let chains = chain_points(&b);
    for (x, y) in [(4, 4), (4, 5)] {
        for stone in [B, W] {
            let m = mv(x, y, stone);
            assert!(m.is_repeat(&b));
            assert_eq!(b.update(&m), Interaction::Illegal(Illegal::Rule(Rule::RepeatMove)));
            assert_eq!(grid(&b), cells);
            assert_eq!(chain_points(&b), chains);
        }
    }
    assert!(!mv(4, 6, B).is_repeat(&b));
    assert!(!mv(0, 0, B).is_repeat(&b));
}

#[test]
fn occupancy_is_judged_before_suicide() {
    let mut b = Board::create(9).unwrap();
    play_all(&mut b, &[(1, 1, B), (2, 2, W), (1, 3, W)]);
    play_all(&mut b, &[(1, 2, B)]);
    play_all(&mut b, &[(2, 1, W)]);
    assert_eq!(b.read((1, 1)), Some(State::Vacant));
    assert_eq!(b.read((1, 2)), Some(State::Vacant));
    play_all(&mut b, &[(1, 2, W)]);
    assert_eq!(
        b.update(&mv(1, 2, B)),
        Interaction::Illegal(Illegal::Rule(Rule::RepeatMove))
    );
    assert_eq!(b.update(&mv(1, 1, B)), Interaction::Illegal(Illegal::Rule(Rule::Suicide)));
}

#[test]
fn suicide_in_the_corner_leaves_board_unchanged() {
    let mut b = Board::create(9).unwrap();
    play_all(&mut b, &[(1, 2, W), (2, 1, W)]);
    let cells = grid(&b);
    let chains = chain_points(&b);
    let m = mv(1, 1, B);
    assert!(!m.has_liberties_or_allies(&b));
    assert!(!m.captures(&b));
    assert!(!m.keeps_liberty(&b));
    assert_eq!(m.is_prohibited(&b), Interaction::Illegal(Illegal::Rule(Rule::Suicide)));
    assert_eq!(b.update(&m), Interaction::Illegal(Illegal::Rule(Rule::Suicide)));
    assert_eq!(grid(&b), cells);
    assert_eq!(chain_points(&b), chains);
    assert_eq!(b.update(&mv(1, 1, W)), Interaction::Legal);
}

#[test]
fn suicide_with_an_ally_that_has_no_other_liberty() {
    let mut b = Board::create(9).unwrap();
    play_all(&mut b, &[(1, 1, B), (1, 2, W), (2, 2, W), (3, 1, W)]);
    let m = mv(2, 1, B);
    assert!(m.has_liberties_or_allies(&b));
    assert!(!m.keeps_liberty(&b));
    assert!(!m.captures(&b));
    let cells = grid(&b);
    assert_eq!(b.update(&m), Interaction::Illegal(Illegal::Rule(Rule::Suicide)));
    assert_eq!(grid(&b), cells);
    assert_eq!(b.chains.len(), 3);
}

#[test]
fn ally_with_a_liberty_makes_a_shut_in_point_legal() {
    let mut b = Board::create(9).unwrap();
    play_all(&mut b, &[(2, 1, B), (1, 2, W)]);
    let m = mv(1, 1, B);
    assert!(m.has_liberties_or_allies(&b));
    assert!(m.keeps_liberty(&b));
    assert!(!m.captures(&b));
    assert_eq!(b.update(&m), Interaction::Legal);
    assert_eq!(b.chains.len(), 2);
    assert_eq!(sorted_points(&b.chains[1]), vec![(1, 1), (2, 1)]);
    check_invariant(&b);
}

#[test]
fn capturing_move_without_a_liberty_of_its_own_is_legal() {
    let mut b = Board::create(9).unwrap();
    play_all(&mut b, &[(2, 1, W), (1, 2, W), (3, 1, B), (2, 2, B), (1, 3, B)]);
    let m = mv(1, 1, B);
    assert!(!m.has_liberties_or_allies(&b));
    assert!(!m.keeps_liberty(&b));
    assert!(m.captures(&b));
    assert_eq!(m.is_prohibited(&b), Interaction::Legal);
    assert_eq!(b.update(&m), Interaction::Legal);
    assert_eq!(b.read((2, 1)), Some(State::Vacant));
    assert_eq!(b.read((1, 2)), Some(State::Vacant));
    assert_eq!(b.read((1, 1)), Some(State::Stone(B)));
    assert_eq!(b.chains.len(), 4);
    assert!(b.chains.iter().all(|c| c.moves.len() == 1 && c.moves[0].stone == B));
    check_invariant(&b);
}

#[test]
fn ring_without_outside_liberties_is_captured_from_its_centre() {
    let mut b = Board::create(9).unwrap();
    play_all(&mut b, &[(3, 2, W), (4, 3, W), (3, 4, W), (2, 3, W)]);
    play_all(
        &mut b,
        &[(3, 1, B), (2, 2, B), (4, 2, B), (5, 3, B), (4, 4, B), (3, 5, B), (2, 4, B), (1, 3, B)],
    );
    assert_eq!(b.update(&mv(3, 3, B)), Interaction::Legal);
    for at in [(3, 2), (4, 3), (3, 4), (2, 3)] {
        assert_eq!(b.read(at), Some(State::Vacant));
    }
    assert_eq!(b.read((3, 3)), Some(State::Stone(B)));
    assert_eq!(b.chains.len(), 9);
    check_invariant(&b);
}

#[test]
fn ring_with_outside_liberties_is_not_captured() {
    let mut b = Board::create(9).unwrap();
    play_all(&mut b, &[(3, 2, W), (4, 3, W), (3, 4, W), (2, 3, W)]);
    let cells = grid(&b);
    assert_eq!(b.update(&mv(3, 3, B)), Interaction::Illegal(Illegal::Rule(Rule::Suicide)));
    assert_eq!(grid(&b), cells);
    for at in [(3, 2), (4, 3), (3, 4), (2, 3)] {
        assert_eq!(b.read(at), Some(State::Stone(W)));
    }
    assert_eq!(b.read((3, 3)), Some(State::Vacant));
}

#[test]
fn adjacent_allies_share_a_chain_and_a_far_stone_starts_its_own() {
    let mut b = Board::create(9).unwrap();
    play_all(&mut b, &[(1, 1, B), (2, 1, B), (7, 7, B)]);
    assert_eq!(b.chains.len(), 2);
    assert_eq!(sorted_points(&b.chains[0]), vec![(1, 1), (2, 1)]);
    assert_eq!(sorted_points(&b.chains[1]), vec![(7, 7)]);
    check_invariant(&b);
}

#[test]
fn bridging_move_merges_every_chain_it_touches() {
    let mut b = Board::create(9).unwrap();
    play_all(&mut b, &[(1, 2, B), (3, 2, B), (2, 1, B), (2, 3, B), (5, 5, W), (7, 2, B)]);
    assert_eq!(b.chains.len(), 6);
    play_all(&mut b, &[(2, 2, B)]);
    assert_eq!(b.chains.len(), 3);
    assert_eq!(sorted_points(&b.chains[0]), vec![(5, 5)]);
    assert_eq!(sorted_points(&b.chains[1]), vec![(7, 2)]);
    assert_eq!(sorted_points(&b.chains[2]), vec![(1, 2), (2, 1), (2, 2), (2, 3), (3, 2)]);
    check_invariant(&b);
}

#[test]
fn stones_of_the_other_colour_do_not_merge() {
    let mut b = Board::create(9).unwrap();
    play_all(&mut b, &[(4, 4, B), (4, 5, W), (5, 4, W)]);
    assert_eq!(b.chains.len(), 3);
    check_invariant(&b);
}

#[test]
fn connection_needs_the_stone_on_the_board() {
    let mut b = Board::create(9).unwrap();
    play_all(&mut b, &[(4, 4, B)]);
    let next = mv(4, 5, B);
    assert!(b.chains[0].is_beside(&next));
    assert!(!b.chains[0].move_is_connected(&next, &b));
    play_all(&mut b, &[(6, 6, B)]);
    let placed = mv(6, 6, B);
    assert!(!b.chains[0].move_is_connected(&placed, &b));
    assert!(b.chains[1].is_beside(&mv(6, 7, B)));
    assert!(!b.chains[1].is_beside(&mv(6, 7, W)));
    assert!(!b.chains[1].is_beside(&mv(7, 7, B)));
    let mut hand = Board::create(9).unwrap();
    hand.board_states.insert((4, 4), B);
    hand.board_states.insert((4, 5), B);
    let chain = Chain { moves: vec![mv(4, 4, B)] };
    assert!(chain.move_is_connected(&mv(4, 5, B), &hand));
    assert!(!chain.move_is_connected(&mv(4, 5, W), &hand));
    assert!(!chain.move_is_connected(&mv(4, 6, B), &hand));
    assert!(!chain.move_is_connected(&mv(5, 5, B), &hand));
}

#[test]
fn liberties_are_vacant_points_on_the_board() {
    let mut b = Board::create(9).unwrap();
    play_all(&mut b, &[(1, 1, B), (1, 2, W)]);
    assert!(b.chains[0].has_liberties(&b));
    assert!(!b.chains[0].has_liberties_besides(&b, &Some((2, 1))));
    assert!(b.chains[0].has_liberties_besides(&b, &Some((1, 3))));
    assert!(b.chains[1].has_liberties_besides(&b, &Some((1, 3))));
    assert!(b.chains[1].has_liberties_besides(&b, &Some((2, 2))));
    let tiny = Board::create(1).unwrap();
    let alone = Chain { moves: vec![mv(1, 1, B)] };
    assert!(!alone.has_liberties(&tiny));
}

#[test]
fn neighbours_off_the_board_are_neither_liberties_nor_allies() {
    let tiny = Board::create(1).unwrap();
    assert!(!mv(1, 1, B).has_liberties_or_allies(&tiny));
    let mut b = Board::create(9).unwrap();
    assert!(mv(1, 1, B).has_liberties_or_allies(&b));
    play_all(&mut b, &[(1, 2, W), (2, 1, W)]);
    assert!(!mv(1, 1, B).has_liberties_or_allies(&b));
    assert!(mv(1, 1, W).has_liberties_or_allies(&b));
}

#[test]
fn every_move_on_a_board_of_one_point_is_suicide() {
    let mut b = Board::create(1).unwrap();
    assert_eq!(b.update(&mv(1, 1, B)), Interaction::Illegal(Illegal::Rule(Rule::Suicide)));
    assert_eq!(b.update(&mv(1, 1, W)), Interaction::Illegal(Illegal::Rule(Rule::Suicide)));
    assert_eq!(b.read((1, 1)), Some(State::Vacant));
    assert!(b.chains.is_empty());
}

#[test]
fn largest_board_plays_on_its_last_point() {
    let mut b = Board::create(127).unwrap();
    play_all(&mut b, &[(127, 127, B), (127, 126, W), (126, 127, W)]);
    assert_eq!(b.read((127, 127)), Some(State::Vacant));
    assert_eq!(b.chains.len(), 2);
    assert_eq!(b.update(&mv(127, 127, B)), Interaction::Illegal(Illegal::Rule(Rule::Suicide)));
}

#[test]
fn dead_chains_are_listed_by_ascending_index() {
    let mut b = Board::create(9).unwrap();
    play_all(&mut b, &[(1, 1, B), (5, 5, W), (9, 9, B)]);
    assert_eq!(b.get_dead_chains(), Vec::<usize>::new());
    b.board_states.insert((1, 2), W);
    b.board_states.insert((2, 1), W);
    b.board_states.insert((9, 8), W);
    b.board_states.insert((8, 9), W);
    assert_eq!(b.get_dead_chains(), vec![0, 2]);
}

#[test]
fn capture_takes_several_chains_at_once_and_keeps_the_rest_in_order() {
    let mut b = Board::create(9).unwrap();
    play_all(&mut b, &[(9, 9, B)]);
    play_all(&mut b, &[(3, 2, W), (4, 3, W), (3, 4, W), (2, 3, W)]);
    play_all(
        &mut b,
        &[(3, 1, B), (2, 2, B), (4, 2, B), (5, 3, B), (4, 4, B), (3, 5, B), (2, 4, B), (1, 3, B)],
    );
    play_all(&mut b, &[(7, 7, W)]);
    assert_eq!(b.chains.len(), 14);
    play_all(&mut b, &[(3, 3, B)]);
    for at in [(3, 2), (4, 3), (3, 4), (2, 3)] {
        assert_eq!(b.read(at), Some(State::Vacant));
    }
    let left: Vec<Vec<(i8, i8)>> = b.chains.iter().map(sorted_points).collect();
    assert_eq!(
        left,
        vec![
            vec![(9, 9)],
            vec![(3, 1)],
            vec![(2, 2)],
            vec![(4, 2)],
            vec![(5, 3)],
            vec![(4, 4)],
            vec![(3, 5)],
            vec![(2, 4)],
            vec![(1, 3)],
            vec![(7, 7)],
            vec![(3, 3)],
        ]
    );
    check_invariant(&b);
}

#[test]
fn invariant_holds_through_a_game_with_rejected_moves() {
    let mut b = Board::create(5).unwrap();
    let mut legal = 0;
    let mut seed: u32 = 12345;
    for turn in 0..400 {
        seed = seed.wrapping_mul(1103515245).wrapping_add(12345);
        let x = ((seed >> 16) % 7) as i8;
        seed = seed.wrapping_mul(1103515245).wrapping_add(12345);
        let y = ((seed >> 16) % 7) as i8;
        let stone = if turn % 2 == 0 { B } else { W };
        let m = mv(x, y, stone);
        let cells = grid(&b);
        let judged = m.is_prohibited(&b);
        let outcome = b.update(&m);
        assert_eq!(outcome, judged);
        match outcome {
            Interaction::Legal => {
                legal += 1;
                assert_eq!(b.read((x, y)), Some(State::Stone(stone)));
            }
            Interaction::Illegal(Illegal::OutOfBounds) => {
                assert!(!is_within_bounds(&(x, y), &5));
                assert_eq!(grid(&b), cells);
            }
            Interaction::Illegal(Illegal::Rule(Rule::RepeatMove)) => {
                assert!(matches!(b.read((x, y)), Some(State::Stone(_))));
                assert_eq!(grid(&b), cells);
            }
            Interaction::Illegal(Illegal::Rule(Rule::Suicide)) => {
                assert_eq!(b.read((x, y)), Some(State::Vacant));
                assert_eq!(grid(&b), cells);
            }
        }
        check_invariant(&b);
    }
    assert!(legal > 10);
}

#[test]
fn opponent_swaps_the_colours() {
    assert_eq!(B.opponent(), W);
    assert_eq!(W.opponent(), B);
}

#[test]
fn board_states_keep_one_stone_per_intersection() {
    let mut states = BoardStates::new();
    assert_eq!(states.get(&(1, 2)), None);
    states.insert((1, 2), B);
    states.insert((2, 1), W);
    states.insert((-128, 127), W);
    states.insert((127, -128), B);
    assert_eq!(states.get(&(1, 2)), Some(B));
    assert_eq!(states.get(&(2, 1)), Some(W));
    assert_eq!(states.get(&(-128, 127)), Some(W));
    assert_eq!(states.get(&(127, -128)), Some(B));
    assert_eq!(states.get(&(2, 2)), None);
    states.insert((1, 2), W);
    assert_eq!(states.get(&(1, 2)), Some(W));
    states.remove(&(1, 2));
    assert_eq!(states.get(&(1, 2)), None);
    assert_eq!(states.get(&(2, 1)), Some(W));
    states.remove(&(5, 5));
    assert_eq!(states.get(&(2, 1)), Some(W));
}
