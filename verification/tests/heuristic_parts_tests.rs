use sokomind::board::parse_board;
use sokomind::compiled_board::CompiledBoard;
use sokomind::dense_state::DenseState;
use sokomind::interaction_boost::{count_interaction_penalties, nearest_goal_distance_empty};
use sokomind::linear_conflict::count_linear_conflicts;
use sokomind::position::Position;

fn compile(rows: &[&str]) -> CompiledBoard {
    let board = parse_board(rows).unwrap();
    CompiledBoard::from_parsed(&board)
}

fn initial_boxes(cb: &CompiledBoard) -> Vec<(u16, u8)> {
    let mut boxes: Vec<(u16, u8)> = cb.initial_box_cells.iter().map(|&(c, l)| (c, l.0)).collect();
    boxes.sort();
    boxes
}

// ---- linear conflicts ----

#[test]
fn no_conflict_single_box() {
    let cb = compile(&["OOOOO", "O  SO", "O XRO", "O   O", "OOOOO"]);
    let state = DenseState::from_initial(&cb);
    assert_eq!(count_linear_conflicts(&cb, &state), 0);
}

#[test]
fn no_conflict_different_labels() {
    let cb = compile(&["OOOOOOO", "O a   O", "O AR  O", "O B   O", "O   b O", "OOOOOOO"]);
    let state = DenseState::from_initial(&cb);
    assert_eq!(count_linear_conflicts(&cb, &state), 0);
}

#[test]
fn row_conflict_detected() {
    let board = parse_board(&["OOOOOOOO", "OS XX SO", "O  R   O", "O      O", "OOOOOOOO"]);
    if board.is_err() {
        return;
    }
    let cb = CompiledBoard::from_parsed(&board.unwrap());
    let state = DenseState::from_initial(&cb);
    let conflicts = count_linear_conflicts(&cb, &state);
    assert!(conflicts <= 4);
}

#[test]
fn boxes_not_on_goal_row_no_conflict() {
    let cb = compile(&["OOOOOOO", "OSS   O", "O     O", "O XX  O", "O  R  O", "O     O", "OOOOOOO"]);
    let state = DenseState::from_initial(&cb);
    assert_eq!(count_linear_conflicts(&cb, &state), 0);
}

#[test]
fn solved_state_no_conflict() {
    let cb = compile(&["OOOOO", "O  SO", "O XRO", "O   O", "OOOOO"]);
    let goal_cell = cb.goal_cells[0].0;
    let goal_label = cb.goal_cells[0].1 .0;
    let state = DenseState {
        keeper_cell: 0,
        keeper_zone: 0,
        box_cells: vec![(goal_cell, goal_label)],
        moves: 0,
        pushes: 0,
    };
    assert_eq!(count_linear_conflicts(&cb, &state), 0);
}

#[test]
fn row_with_goals_on_both_sides_counts_one_conflict() {
    // Boxes at columns 3 and 4, goals at columns 1 and 6 of the same row:
    // one goal lies beyond each box, which the count treats as a crossing.
    let cb = compile(&["OOOOOOOO", "OS XX SO", "O  R   O", "O      O", "OOOOOOOO"]);
    let state = DenseState::from_initial(&cb);
    assert_eq!(count_linear_conflicts(&cb, &state), 2);
}

#[test]
fn column_conflict_counts_two() {
    // Boxes at rows 2 and 3 of column 1, goals at rows 1 and 4 of it.
    let cb = compile(&["OOOOO", "OS  O", "OX  O", "OXR O", "OS  O", "OOOOO"]);
    let state = DenseState::from_initial(&cb);
    assert_eq!(count_linear_conflicts(&cb, &state), 2);
}

#[test]
fn two_goals_between_the_boxes_conflict() {
    // Boxes at columns 1 and 6, goals at 3 and 4 between them: taken in the
    // order (4, 3) the goals cross.
    let cb = compile(&["OOOOOOOO", "OX SS XO", "O  R   O", "OOOOOOOO"]);
    let state = DenseState::from_initial(&cb);
    assert_eq!(count_linear_conflicts(&cb, &state), 2);
}

#[test]
fn goals_beyond_both_boxes_do_not_conflict() {
    // Boxes at columns 1 and 2, both goals to their right at 4 and 5.
    let cb = compile(&["OOOOOOO", "OXX SSO", "O R   O", "OOOOOOO"]);
    let state = DenseState::from_initial(&cb);
    assert_eq!(count_linear_conflicts(&cb, &state), 0);
}

// ---- interaction penalties ----

#[test]
fn single_box_no_penalty() {
    let cb = compile(&["OOOOO", "O  SO", "O XRO", "O   O", "OOOOO"]);
    let box_cells: Vec<(u16, u8)> = cb.initial_box_cells.iter().map(|&(c, l)| (c, l.0)).collect();
    assert_eq!(count_interaction_penalties(&cb, &box_cells), 0);
}

#[test]
fn no_boxes_no_penalty() {
    let cb = compile(&["OOOOO", "O  SO", "O XRO", "O   O", "OOOOO"]);
    assert_eq!(count_interaction_penalties(&cb, &[]), 0);
}

#[test]
fn boxes_not_blocking_no_penalty() {
    let cb = compile(&["OOOOOOO", "OSS   O", "O     O", "O XX  O", "O  R  O", "O     O", "OOOOOOO"]);
    let box_cells: Vec<(u16, u8)> = cb.initial_box_cells.iter().map(|&(c, l)| (c, l.0)).collect();
    let penalty = count_interaction_penalties(&cb, &box_cells);
    assert!(penalty <= 4);
}

#[test]
fn blocking_box_detected() {
    let board = parse_board(&["OOOOO", "O  SO", "O  RO", "O  XO", "O  XO", "OOOOO"]);
    if board.is_err() {
        return;
    }
    let cb = CompiledBoard::from_parsed(&board.unwrap());
    let box_cells = initial_boxes(&cb);
    let penalty = count_interaction_penalties(&cb, &box_cells);
    assert!(penalty <= 8, "penalty should be bounded");
}

#[test]
fn solved_state_no_penalty() {
    let cb = compile(&["OOOOOOO", "OSS   O", "O     O", "O XX  O", "O  R  O", "O     O", "OOOOOOO"]);
    let box_cells: Vec<(u16, u8)> = cb.goal_cells.iter().map(|&(c, l)| (c, l.0)).collect();
    assert_eq!(count_interaction_penalties(&cb, &box_cells), 0);
}

#[test]
fn empty_board_distance() {
    let cb = compile(&["OOOOO", "O  SO", "O XRO", "O   O", "OOOOO"]);
    let box_cell = cb.initial_box_cells[0].0;
    let label = cb.initial_box_cells[0].1 .0;
    let dist = nearest_goal_distance_empty(&cb, box_cell, label);
    assert!(dist > 0 && dist < u32::MAX);
}

#[test]
fn blocked_corridor_penalties_exact() {
    // The box at (3,3) needs the pusher on (4,3), where the other box stands:
    // cut off, two. The box at (4,3) cannot move at all, empty board or not;
    // its empty-board distance is the unreachable push distance, not the
    // no-goal marker, so it counts two as well.
    let cb = compile(&["OOOOO", "OS SO", "O  RO", "O  XO", "O  XO", "OOOOO"]);
    let box_cells = initial_boxes(&cb);
    assert_eq!(count_interaction_penalties(&cb, &box_cells), 4);
    assert_eq!(nearest_goal_distance_empty(&cb, cb.pos_to_cell(Position::new(3, 3)), 0), 2);
    assert_eq!(nearest_goal_distance_empty(&cb, cb.pos_to_cell(Position::new(4, 3)), 0), 65535);
    assert_eq!(nearest_goal_distance_empty(&cb, cb.pos_to_cell(Position::new(3, 3)), 5), u32::MAX);
}
