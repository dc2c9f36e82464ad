use sokomind::board::parse_board;
use sokomind::compiled_board::{CompiledBoard, INVALID_CELL};
use sokomind::counters::SearchCounters;
use sokomind::deadlock::freeze::is_freeze_deadlock;
use sokomind::deadlock::goal_commitment::is_goal_commitment_deadlock;
use sokomind::deadlock::pattern::is_pattern_deadlock;
use sokomind::deadlock::pi_corral::is_pi_corral_deadlock;
use sokomind::deadlock::static_dead::is_static_deadlock;
use sokomind::deadlock::tables::DeadlockTable;
use sokomind::deadlock::two_by_two::is_two_by_two_deadlock;
use sokomind::deadlock::DeadlockChecker;
use sokomind::position::Position;
use sokomind::topology::BoardTopology;

fn small_board() -> CompiledBoard {
    let rows = &["OOOOO", "O  SO", "O XRO", "O   O", "OOOOO"];
    let board = parse_board(rows).unwrap();
    CompiledBoard::from_parsed(&board)
}

fn initial_boxes(cb: &CompiledBoard) -> Vec<(u16, u8)> {
    let mut boxes: Vec<(u16, u8)> = cb.initial_box_cells.iter().map(|&(c, l)| (c, l.0)).collect();
    boxes.sort();
    boxes
}

// ---- checker ----

#[test]
fn pipeline_detects_static() {
    let cb = small_board();
    let checker = DeadlockChecker::new(&cb);
    let mut counters = SearchCounters::default();

    let corner = cb.pos_to_cell(Position::new(1, 1));
    assert!(checker.is_deadlocked(&cb, cb.robot_cell, &[(corner, 0)], &mut counters));
    assert_eq!(counters.deadlock_static, 1);
    assert_eq!(counters.deadlock_two_by_two, 0);
    assert_eq!(counters.deadlock_freeze, 0);
}

#[test]
fn pipeline_no_deadlock() {
    let cb = small_board();
    let checker = DeadlockChecker::new(&cb);
    let mut counters = SearchCounters::default();

    let box_cell = cb.pos_to_cell(Position::new(2, 2));
    assert!(!checker.is_deadlocked(&cb, cb.robot_cell, &[(box_cell, 0)], &mut counters));
    assert_eq!(counters.deadlock_static, 0);
    assert_eq!(counters.deadlock_two_by_two, 0);
    assert_eq!(counters.deadlock_freeze, 0);
}

#[test]
fn pipeline_detects_freeze() {
    let cb = small_board();
    let checker = DeadlockChecker::new(&cb);
    let mut counters = SearchCounters::default();

    let corner = cb.pos_to_cell(Position::new(3, 1));
    assert!(checker.is_deadlocked(&cb, cb.robot_cell, &[(corner, 0)], &mut counters));
    assert_eq!(counters.deadlock_static, 1);
}

#[test]
fn quick_check_matches() {
    let cb = small_board();
    let checker = DeadlockChecker::new(&cb);

    let corner = cb.pos_to_cell(Position::new(1, 1));
    assert!(checker.is_deadlocked_quick(&cb, &[(corner, 0)]));

    let open = cb.pos_to_cell(Position::new(2, 2));
    assert!(!checker.is_deadlocked_quick(&cb, &[(open, 0)]));
}

#[test]
fn pipeline_detects_goal_commitment() {
    let cb = small_board();
    let checker = DeadlockChecker::new(&cb);
    let mut counters = SearchCounters::default();

    let b1 = cb.pos_to_cell(Position::new(2, 2));
    let b2 = cb.pos_to_cell(Position::new(2, 1));
    let mut boxes = vec![(b1, 0u8), (b2, 0u8)];
    boxes.sort();
    assert!(checker.is_deadlocked(&cb, cb.robot_cell, &boxes, &mut counters));
}

#[test]
fn pipeline_counts_only_the_first_detector() {
    // Two boxes on one goal: not static, not 2x2, not frozen, not in the
    // table, no diagonal: the goal-commitment counter alone goes up.
    let cb = small_board();
    let checker = DeadlockChecker::new(&cb);
    let mut counters = SearchCounters::default();
    let mut boxes = vec![
        (cb.pos_to_cell(Position::new(2, 2)), 0u8),
        (cb.pos_to_cell(Position::new(1, 2)), 0u8),
    ];
    boxes.sort();
    assert!(checker.is_deadlocked(&cb, cb.robot_cell, &boxes, &mut counters));
    assert_eq!(counters.deadlock_static, 0);
    assert_eq!(counters.deadlock_two_by_two, 0);
    assert_eq!(counters.deadlock_freeze, 0);
    assert_eq!(counters.deadlock_table, 0);
    assert_eq!(counters.deadlock_pattern, 0);
    assert_eq!(counters.deadlock_goal_commitment, 1);
    assert_eq!(counters.deadlock_pi_corral, 0);
    assert_eq!(counters.expanded, 0);
    assert!(!checker.topology().is_dead(cb.pos_to_cell(Position::new(2, 2))));
}

// ---- static ----

#[test]
fn box_on_dead_corner() {
    let cb = small_board();
    let topo = BoardTopology::analyze(&cb);

    let corner_cell = cb.pos_to_cell(Position::new(1, 1));
    assert!(is_static_deadlock(&topo, &[(corner_cell, 0)]));
}

#[test]
fn box_on_goal_not_dead() {
    let cb = small_board();
    let topo = BoardTopology::analyze(&cb);

    let goal_cell = cb.goal_cells[0].0;
    assert!(!is_static_deadlock(&topo, &[(goal_cell, 0)]));
}

#[test]
fn box_on_open_floor() {
    let cb = small_board();
    let topo = BoardTopology::analyze(&cb);

    let center = cb.pos_to_cell(Position::new(2, 2));
    assert!(!is_static_deadlock(&topo, &[(center, 0)]));
}

#[test]
fn one_dead_among_many() {
    let rows = &["OOOOOOO", "O     O", "O XAR O", "O  Sa O", "OOOOOOO"];
    let board = parse_board(rows).unwrap();
    let cb = CompiledBoard::from_parsed(&board);
    let topo = BoardTopology::analyze(&cb);

    let corner = cb.pos_to_cell(Position::new(1, 1));
    let center = cb.pos_to_cell(Position::new(2, 3));
    assert!(is_static_deadlock(&topo, &[(center, 0), (corner, 1)]));
}

// ---- 2x2 ----

#[test]
fn two_boxes_against_corner_wall() {
    let rows = &["OOOOO", "OXX O", "O SSO", "O  RO", "OOOOO"];
    let board = parse_board(rows).unwrap();
    let cb = CompiledBoard::from_parsed(&board);

    let b1 = cb.pos_to_cell(Position::new(1, 1));
    let b2 = cb.pos_to_cell(Position::new(1, 2));
    assert!(!is_two_by_two_deadlock(&cb, &[(b1, 0), (b2, 0)]));
}

#[test]
fn four_boxes_in_square() {
    let rows = &["OOOOOOO", "O     O", "O XX  O", "ORXX  O", "O  SS O", "O  SS O", "OOOOOOO"];
    let board = parse_board(rows).unwrap();
    let cb = CompiledBoard::from_parsed(&board);

    let b1 = cb.pos_to_cell(Position::new(2, 2));
    let b2 = cb.pos_to_cell(Position::new(2, 3));
    let b3 = cb.pos_to_cell(Position::new(3, 2));
    let b4 = cb.pos_to_cell(Position::new(3, 3));
    assert!(is_two_by_two_deadlock(&cb, &[(b1, 0), (b2, 0), (b3, 0), (b4, 0)]));
}

#[test]
fn four_boxes_all_on_goals_not_deadlock() {
    let rows = &["OOOOOOO", "O     O", "O XX  O", "ORXX  O", "O  SS O", "O  SS O", "OOOOOOO"];
    let board = parse_board(rows).unwrap();
    let cb = CompiledBoard::from_parsed(&board);

    let g1 = cb.goal_cells[0].0;
    let g2 = cb.goal_cells[1].0;
    let g3 = cb.goal_cells[2].0;
    let g4 = cb.goal_cells[3].0;
    assert!(!is_two_by_two_deadlock(&cb, &[(g1, 0), (g2, 0), (g3, 0), (g4, 0)]));
}

#[test]
fn no_deadlock_open_space() {
    let cb = small_board();
    let box_cell = cb.pos_to_cell(Position::new(2, 2));
    assert!(!is_two_by_two_deadlock(&cb, &[(box_cell, 0)]));
}

#[test]
fn full_block_of_boxes_off_goal_jams() {
    // A 2x2 block of floor cells filled with boxes, one of them off goal.
    let rows = &["OOOOO", "OXX O", "O SSO", "O  RO", "OOOOO"];
    let board = parse_board(rows).unwrap();
    let cb = CompiledBoard::from_parsed(&board);
    let b1 = cb.pos_to_cell(Position::new(1, 1));
    let b2 = cb.pos_to_cell(Position::new(1, 2));
    let b3 = cb.pos_to_cell(Position::new(2, 1));
    let b4 = cb.pos_to_cell(Position::new(2, 2));
    assert!(is_two_by_two_deadlock(&cb, &[(b1, 0), (b2, 0), (b3, 0), (b4, 0)]));
}

// ---- freeze ----

#[test]
fn single_box_open_not_frozen() {
    let cb = small_board();
    let box_cell = cb.pos_to_cell(Position::new(2, 2));
    assert!(!is_freeze_deadlock(&cb, &[(box_cell, 0)]));
}

#[test]
fn single_box_in_corner_frozen() {
    let cb = small_board();
    let corner = cb.pos_to_cell(Position::new(1, 1));
    assert!(!is_freeze_deadlock(&cb, &[(corner, 0)]));
}

#[test]
fn box_against_wall_one_axis_not_frozen() {
    let cb = small_board();
    let wall_adj = cb.pos_to_cell(Position::new(1, 2));
    assert!(!is_freeze_deadlock(&cb, &[(wall_adj, 0)]));
}

#[test]
fn two_boxes_one_can_slide() {
    let rows = &["OOOOO", "OXX O", "ORSSO", "O   O", "OOOOO"];
    let board = parse_board(rows).unwrap();
    let cb = CompiledBoard::from_parsed(&board);

    let b1 = cb.pos_to_cell(Position::new(1, 1));
    let b2 = cb.pos_to_cell(Position::new(1, 2));
    assert!(!is_freeze_deadlock(&cb, &[(b1, 0), (b2, 0)]));
}

#[test]
fn mutual_freeze_2x2_corner() {
    let rows = &["OOOOOOO", "OXX   O", "OXX   O", "OR    O", "O  SS O", "O  SS O", "OOOOOOO"];
    let board = parse_board(rows).unwrap();
    let cb = CompiledBoard::from_parsed(&board);

    let b1 = cb.pos_to_cell(Position::new(1, 1));
    let b2 = cb.pos_to_cell(Position::new(1, 2));
    let b3 = cb.pos_to_cell(Position::new(2, 1));
    let b4 = cb.pos_to_cell(Position::new(2, 2));
    assert!(!is_freeze_deadlock(&cb, &[(b1, 0), (b2, 0), (b3, 0), (b4, 0)]));
}

#[test]
fn freeze_in_wall_channel() {
    let rows = &["OOOOOO", "OXO  O", "OXO  O", "OR   O", "O SS O", "OOOOOO"];
    let board = parse_board(rows).unwrap();
    let cb = CompiledBoard::from_parsed(&board);

    let b1 = cb.pos_to_cell(Position::new(1, 1));
    let b2 = cb.pos_to_cell(Position::new(2, 1));
    assert!(!is_freeze_deadlock(&cb, &[(b1, 0), (b2, 0)]));
}

#[test]
fn freeze_in_sealed_channel() {
    let rows = &["OOOOOO", "OXO  O", "OXO  O", "OOO  O", "O R  O", "O SS O", "OOOOOO"];
    let board = parse_board(rows).unwrap();
    let cb = CompiledBoard::from_parsed(&board);

    let b1 = cb.pos_to_cell(Position::new(1, 1));
    let b2 = cb.pos_to_cell(Position::new(2, 1));
    assert!(is_freeze_deadlock(&cb, &[(b1, 0), (b2, 0)]));
}

#[test]
fn frozen_on_goal_not_deadlock() {
    let cb = small_board();
    let goal_cell = cb.goal_cells[0].0;
    let label = cb.goal_cells[0].1 .0;
    assert!(!is_freeze_deadlock(&cb, &[(goal_cell, label)]));
}

// ---- goal commitment ----

#[test]
fn box_can_reach_goal() {
    let cb = small_board();
    let box_cell = cb.pos_to_cell(Position::new(2, 2));
    assert!(!is_goal_commitment_deadlock(&cb, &[(box_cell, 0)]));
}

#[test]
fn box_unreachable_from_goal() {
    let cb = small_board();
    let corner = cb.pos_to_cell(Position::new(1, 1));
    let dist = cb.reverse_push_distance(0, corner);
    if dist == u16::MAX {
        assert!(is_goal_commitment_deadlock(&cb, &[(corner, 0)]));
    }
}

#[test]
fn label_mismatch_deadlock() {
    let rows = &["OOOOO", "O  aO", "O ARO", "O   O", "OOOOO"];
    let board = parse_board(rows).unwrap();
    let cb = CompiledBoard::from_parsed(&board);

    let box_cell = cb.initial_box_cells[0].0;
    let box_label = cb.initial_box_cells[0].1 .0;
    assert!(!is_goal_commitment_deadlock(&cb, &[(box_cell, box_label)]));
    assert!(is_goal_commitment_deadlock(&cb, &[(box_cell, 2)]));
}

#[test]
fn two_boxes_one_goal_deadlock() {
    let cb = small_board();
    let b1 = cb.pos_to_cell(Position::new(2, 2));
    let b2 = cb.pos_to_cell(Position::new(2, 1));
    assert!(is_goal_commitment_deadlock(&cb, &[(b1, 0), (b2, 0)]));
}

#[test]
fn matching_detects_pigeonhole() {
    let rows = &["OOOOOOO", "OSS   O", "O     O", "O XX  O", "O  R  O", "O     O", "OOOOOOO"];
    let board = parse_board(rows).unwrap();
    let cb = CompiledBoard::from_parsed(&board);

    let b1 = cb.initial_box_cells[0].0;
    let b2 = cb.initial_box_cells[1].0;
    let l1 = cb.initial_box_cells[0].1 .0;
    let l2 = cb.initial_box_cells[1].1 .0;
    assert!(!is_goal_commitment_deadlock(&cb, &[(b1.min(b2), l1), (b1.max(b2), l2)]));
}

#[test]
fn empty_boxes_not_deadlock() {
    let cb = small_board();
    assert!(!is_goal_commitment_deadlock(&cb, &[]));
}

// ---- diagonal pattern ----

#[test]
fn no_diagonal_deadlock_open_board() {
    let rows = &["OOOOOOO", "OSS   O", "O     O", "O XX  O", "O  R  O", "O     O", "OOOOOOO"];
    let board = parse_board(rows).unwrap();
    let cb = CompiledBoard::from_parsed(&board);
    assert!(!is_pattern_deadlock(&cb, &initial_boxes(&cb)));
}

#[test]
fn single_box_no_pattern() {
    let cb = small_board();
    let box_cell = cb.pos_to_cell(Position::new(2, 2));
    assert!(!is_pattern_deadlock(&cb, &[(box_cell, 0)]));
}

#[test]
fn pattern_empty_boxes() {
    let cb = small_board();
    assert!(!is_pattern_deadlock(&cb, &[]));
}

#[test]
fn non_diagonal_adjacent_boxes() {
    let rows = &["OOOOOOO", "O  SS O", "O XXR O", "O     O", "OOOOOOO"];
    let board = parse_board(rows).unwrap();
    let cb = CompiledBoard::from_parsed(&board);
    assert!(!is_pattern_deadlock(&cb, &initial_boxes(&cb)));
}

#[test]
fn closed_diagonal_detected() {
    let rows = &["OOOOOO", "OXO  O", "OOXS O", "O  S O", "O R  O", "OOOOOO"];
    let board = parse_board(rows).unwrap();
    let cb = CompiledBoard::from_parsed(&board);

    let b1 = cb.pos_to_cell(Position::new(1, 1));
    let b2 = cb.pos_to_cell(Position::new(2, 2));

    let c1 = cb.pos_to_cell(Position::new(1, 2));
    let c2 = cb.pos_to_cell(Position::new(2, 1));
    assert_eq!(c1, INVALID_CELL, "(1,2) should be wall");
    assert_eq!(c2, INVALID_CELL, "(2,1) should be wall");

    assert!(is_pattern_deadlock(&cb, &[(b1, 0), (b2, 0)]));
}

#[test]
fn diagonal_both_on_goals_not_deadlock() {
    let rows = &["OOOOOO", "OXO  O", "OOXS O", "O  S O", "O R  O", "OOOOOO"];
    let board = parse_board(rows).unwrap();
    let cb = CompiledBoard::from_parsed(&board);

    let g1 = cb.goal_cells[0].0;
    let g2 = cb.goal_cells[1].0;
    let l1 = cb.goal_cells[0].1 .0;
    let l2 = cb.goal_cells[1].1 .0;
    let mut boxes = vec![(g1, l1), (g2, l2)];
    boxes.sort();
    assert!(!is_pattern_deadlock(&cb, &boxes));
}

// ---- pi-corral ----

#[test]
fn no_corral_open_board() {
    let cb = small_board();
    let keeper = cb.robot_cell;
    let box_cell = cb.initial_box_cells[0].0;
    let label = cb.initial_box_cells[0].1 .0;
    assert!(!is_pi_corral_deadlock(&cb, keeper, &[(box_cell, label)]));
}

#[test]
fn box_behind_boxes_not_pi_corral() {
    let rows = &["OOOOOOO", "O X   O", "OXXXO O", "O SSS O", "OR  S O", "OOOOOOO"];
    let board = parse_board(rows).unwrap();
    let cb = CompiledBoard::from_parsed(&board);
    assert!(!is_pi_corral_deadlock(&cb, cb.robot_cell, &initial_boxes(&cb)));
}

#[test]
fn box_fully_enclosed_by_walls_and_boxes() {
    let rows = &["OOOOOO", "OXX  O", "OO S O", "O  R O", "O S  O", "OOOOOO"];
    let board = parse_board(rows).unwrap();
    let cb = CompiledBoard::from_parsed(&board);
    assert!(is_pi_corral_deadlock(&cb, cb.robot_cell, &initial_boxes(&cb)));
}

#[test]
fn all_boxes_reachable() {
    let rows = &["OOOOOOO", "OSS   O", "O     O", "O XX  O", "O  R  O", "O     O", "OOOOOOO"];
    let board = parse_board(rows).unwrap();
    let cb = CompiledBoard::from_parsed(&board);
    assert!(!is_pi_corral_deadlock(&cb, cb.robot_cell, &initial_boxes(&cb)));
}

#[test]
fn trapped_box_on_goal_not_deadlock() {
    let cb = small_board();
    let goal_cell = cb.goal_cells[0].0;
    let goal_label = cb.goal_cells[0].1 .0;
    assert!(!is_pi_corral_deadlock(&cb, cb.robot_cell, &[(goal_cell, goal_label)]));
}

#[test]
fn pi_corral_empty_boxes() {
    let cb = small_board();
    assert!(!is_pi_corral_deadlock(&cb, cb.robot_cell, &[]));
}

// ---- table ----

#[test]
fn table_builds_without_panic() {
    let cb = small_board();
    let topo = BoardTopology::analyze(&cb);
    let table = DeadlockTable::build(&cb, &topo);
    assert!(!table.is_deadlocked(&[]));
}

#[test]
fn box_on_goal_not_in_table() {
    let cb = small_board();
    let topo = BoardTopology::analyze(&cb);
    let table = DeadlockTable::build(&cb, &topo);

    let goal_cell = cb.goal_cells[0].0;
    let goal_label = cb.goal_cells[0].1 .0;
    assert!(!table.is_deadlocked(&[(goal_cell, goal_label)]));
}

#[test]
fn dead_corner_in_table() {
    let cb = small_board();
    let topo = BoardTopology::analyze(&cb);
    let table = DeadlockTable::build(&cb, &topo);

    let corner = cb.pos_to_cell(Position::new(1, 1));
    let dist = cb.reverse_push_distance(0, corner);
    if dist == u16::MAX {
        assert!(table.is_deadlocked(&[(corner, 0)]));
    }
}

#[test]
fn open_center_not_deadlocked() {
    let cb = small_board();
    let topo = BoardTopology::analyze(&cb);
    let table = DeadlockTable::build(&cb, &topo);

    let center = cb.pos_to_cell(Position::new(2, 2));
    assert!(!table.is_deadlocked(&[(center, 0)]));
}

#[test]
fn empty_boxes_not_deadlocked() {
    let cb = small_board();
    let topo = BoardTopology::analyze(&cb);
    let table = DeadlockTable::build(&cb, &topo);
    assert!(!table.is_deadlocked(&[]));
}
