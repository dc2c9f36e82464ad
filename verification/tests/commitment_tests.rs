use sokomind::board::parse_board;
use sokomind::compiled_board::CompiledBoard;
use sokomind::dense_state::DenseState;
use sokomind::goal_commitment::GoalCommitmentDetector;
use sokomind::position::Position;

fn compile(rows: &[&str]) -> CompiledBoard {
    let board = parse_board(rows).unwrap();
    CompiledBoard::from_parsed(&board)
}

#[test]
fn no_commitment_when_not_on_goal() {
    let cb = compile(&["OOOOO", "O  SO", "O XRO", "O   O", "OOOOO"]);
    let state = DenseState::from_initial(&cb);
    let detector = GoalCommitmentDetector::new(&cb);
    let mask = detector.find_committed_boxes(&cb, &state.box_cells);
    assert_eq!(mask, 0);
}

#[test]
fn commitment_on_corner_goal() {
    let cb = compile(&["OOOOO", "OS  O", "O XRO", "O   O", "OOOOO"]);
    let detector = GoalCommitmentDetector::new(&cb);

    let goal_cell = cb.goal_cells[0].0;
    let goal_label = cb.goal_cells[0].1 .0;
    let box_cells = vec![(goal_cell, goal_label)];

    let mask = detector.find_committed_boxes(&cb, &box_cells);
    assert_ne!(mask, 0);
}

#[test]
fn no_commitment_without_residual_feasibility() {
    let cb = compile(&["OOOOOOO", "OSS   O", "O XXR O", "O     O", "OOOOOOO"]);
    let detector = GoalCommitmentDetector::new(&cb);
    let state = DenseState::from_initial(&cb);
    let mask = detector.find_committed_boxes(&cb, &state.box_cells);
    assert_eq!(mask, 0, "boxes not on goals should not commit");
}

#[test]
fn has_potential_detects_corner_goals() {
    let cb = compile(&["OOOOO", "OS  O", "O XRO", "O   O", "OOOOO"]);
    let detector = GoalCommitmentDetector::new(&cb);
    assert!(detector.has_potential());
}

#[test]
fn no_potential_without_corner_goals() {
    let cb = compile(&["OOOOOOO", "O     O", "O S   O", "O XR  O", "O     O", "OOOOOOO"]);
    let detector = GoalCommitmentDetector::new(&cb);
    assert!(!detector.has_potential());
}

#[test]
fn commitment_needs_the_rest_to_fit() {
    // Goals in the corners (1,1) and (1,4). A box on (1,1) is committed when
    // the other box can still reach (1,4), not when it sits in a dead corner.
    let cb = compile(&["OOOOOO", "OS  SO", "O    O", "OX XRO", "OOOOOO"]);
    let detector = GoalCommitmentDetector::new(&cb);
    let on_goal = cb.pos_to_cell(Position::new(1, 1));
    let open = cb.pos_to_cell(Position::new(2, 2));
    let stuck = cb.pos_to_cell(Position::new(3, 1));

    let mut feasible = vec![(on_goal, 0u8), (open, 0u8)];
    feasible.sort();
    assert_eq!(detector.find_committed_boxes(&cb, &feasible), 1);

    let mut infeasible = vec![(on_goal, 0u8), (stuck, 0u8)];
    infeasible.sort();
    assert_eq!(detector.find_committed_boxes(&cb, &infeasible), 0);
    assert_eq!(detector.find_committed_boxes_aggressive(&cb, &infeasible), 0);

    // Both boxes on the two goals: each one's removal leaves the other on its goal.
    let both = vec![(on_goal, 0u8), (cb.pos_to_cell(Position::new(1, 4)), 0u8)];
    assert_eq!(detector.find_committed_boxes(&cb, &both), 3);
}

#[test]
fn aggressive_commitment_ignores_corners() {
    let cb = compile(&["OOOOOOO", "O     O", "O  S  O", "O XR  O", "O     O", "OOOOOOO"]);
    let detector = GoalCommitmentDetector::new(&cb);
    let goal = cb.pos_to_cell(Position::new(2, 3));
    let boxes = vec![(goal, 0u8)];
    assert_eq!(detector.find_committed_boxes(&cb, &boxes), 0);
    assert_eq!(detector.find_committed_boxes_aggressive(&cb, &boxes), 1);
    // A box of another label on the goal is not committed.
    assert_eq!(detector.find_committed_boxes_aggressive(&cb, &[(goal, 2u8)]), 0);
    assert_eq!(detector.find_committed_boxes_aggressive(&cb, &[]), 0);
}

#[test]
fn label_counts_must_match() {
    // Two generic boxes, one on the corner goal, but only one generic goal:
    // the other box has no goal left.
    let cb = compile(&["OOOOO", "OS  O", "O XRO", "O   O", "OOOOO"]);
    let detector = GoalCommitmentDetector::new(&cb);
    let goal = cb.pos_to_cell(Position::new(1, 1));
    let other = cb.pos_to_cell(Position::new(2, 2));
    let boxes = vec![(goal, 0u8), (other, 0u8)];
    assert_eq!(detector.find_committed_boxes(&cb, &boxes), 0);
}
