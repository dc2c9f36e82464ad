use sokomind::board::parse_board;
use sokomind::compiled_board::CompiledBoard;
use sokomind::deadlock::DeadlockChecker;
use sokomind::improvement::box_rescheduling::{
    replay_to_offset, reschedule_boxes, segment_walk_cost, total_walk_cost, try_swapped_order, PartialState,
};
use sokomind::improvement::bridge_astar::{
    astar_segment, bridge_astar_improve, find_doorway_crossings, heuristic_to_target,
};
use sokomind::improvement::improve_push_sequence;
use sokomind::improvement::move_window::optimize_walks;
use sokomind::improvement::permutation_window::{count_total_moves, optimize_permutations, simulate_moves};
use sokomind::improvement::push_window::{find_shorter_push_sequence, optimize_pushes, replay_pushes};
use sokomind::planning::rooms::RoomMap;
use sokomind::position::{Direction, Position};

fn compile(rows: &[&str]) -> CompiledBoard {
    let board = parse_board(rows).unwrap();
    CompiledBoard::from_parsed(&board)
}

fn cell(cb: &CompiledBoard, row: i16, col: i16) -> u16 {
    cb.pos_to_cell(Position::new(row, col))
}

fn initial_state(cb: &CompiledBoard) -> PartialState {
    PartialState { keeper: cb.robot_cell, box_cells: cb.initial_box_cells.iter().map(|&(c, l)| (c, l.0)).collect() }
}

const SMALL: [&str; 5] = ["OOOOO", "O  SO", "O XRO", "O   O", "OOOOO"];
const OPEN_ROOM: [&str; 7] = ["OOOOOOO", "OSS   O", "O     O", "O XX  O", "O  R  O", "O     O", "OOOOOOO"];
const TWO_ROOMS: [&str; 6] = ["OOOOOOOOO", "OS      O", "OOOOO OOO", "O       O", "O XR    O", "OOOOOOOOO"];

// ---- box rescheduling ----

#[test]
fn box_rescheduling_empty_pushes_no_crash() {
    let cb = compile(&SMALL);
    let deadlocks = DeadlockChecker::new(&cb);
    let mut pushes = Vec::new();
    let saved = reschedule_boxes(&cb, &deadlocks, &mut pushes);
    assert_eq!(saved, 0);
}

#[test]
fn single_box_no_change() {
    let cb = compile(&SMALL);
    let deadlocks = DeadlockChecker::new(&cb);
    let mut pushes = vec![(0, Direction::Up), (0, Direction::Right)];
    let saved = reschedule_boxes(&cb, &deadlocks, &mut pushes);
    assert_eq!(saved, 0);
}

#[test]
fn two_box_reschedule() {
    let cb = compile(&OPEN_ROOM);
    let deadlocks = DeadlockChecker::new(&cb);
    let mut pushes = vec![(0, Direction::Up), (0, Direction::Up)];
    let original_len = pushes.len();
    let saved = reschedule_boxes(&cb, &deadlocks, &mut pushes);
    assert!(pushes.len() <= original_len);
    assert_eq!(saved, 0);
}

#[test]
fn replay_and_walk_costs_exact() {
    let cb = compile(&SMALL);
    let after_up = replay_to_offset(&cb, &[(0, Direction::Up), (0, Direction::Right)], 1);
    assert_eq!(after_up.keeper, cell(&cb, 2, 2));
    assert_eq!(after_up.box_cells, vec![(cell(&cb, 1, 2), 0)]);
    // Up: walk (2,3) -> (3,3) -> (3,2) and push; right: walk (2,2) -> (2,1) -> (1,1) and push.
    let state = initial_state(&cb);
    assert_eq!(segment_walk_cost(&cb, &state, &[(0, Direction::Up), (0, Direction::Right)]), 6);
    assert_eq!(total_walk_cost(&cb, &[(0, Direction::Up), (0, Direction::Right)]), 6);
    // The keeper already stands behind the box.
    assert_eq!(segment_walk_cost(&cb, &state, &[(0, Direction::Left)]), 1);
    // No box 3, and no cell behind a box pushed down from the top row.
    assert_eq!(segment_walk_cost(&cb, &state, &[(3, Direction::Left)]), u32::MAX);
    assert_eq!(segment_walk_cost(&cb, &after_up, &[(0, Direction::Down)]), u32::MAX);
}

// ---- push windows ----

#[test]
fn already_optimal_unchanged() {
    let cb = compile(&SMALL);
    let deadlocks = DeadlockChecker::new(&cb);
    let mut pushes = vec![(0, Direction::Up), (0, Direction::Right)];
    let saved = optimize_pushes(&cb, &deadlocks, &mut pushes);
    assert_eq!(saved, 0);
    assert_eq!(pushes.len(), 2);
}

#[test]
fn replay_pushes_correct() {
    let cb = compile(&SMALL);
    let state = replay_pushes(&cb, &[]);
    assert_eq!(state.box_cells.len(), 1);
    let state2 = replay_pushes(&cb, &[(0, Direction::Up)]);
    assert_ne!(state.box_cells[0].0, state2.box_cells[0].0);
}

#[test]
fn push_window_empty_pushes_no_crash() {
    let cb = compile(&SMALL);
    let deadlocks = DeadlockChecker::new(&cb);
    let mut pushes = Vec::new();
    let saved = optimize_pushes(&cb, &deadlocks, &mut pushes);
    assert_eq!(saved, 0);
}

#[test]
fn back_and_forth_collapses() {
    let cb = compile(&["OOOOOOO", "O     O", "O RX  O", "O     O", "O    SO", "OOOOOOO"]);
    let deadlocks = DeadlockChecker::new(&cb);
    let mut pushes = vec![(0, Direction::Right), (0, Direction::Left), (0, Direction::Right)];
    let saved = optimize_pushes(&cb, &deadlocks, &mut pushes);
    assert_eq!(saved, 2);
    assert_eq!(pushes, vec![(0, Direction::Right)]);
    let state = replay_pushes(&cb, &pushes);
    assert_eq!(state.box_cells, vec![(cell(&cb, 2, 4), 0)]);
    assert_eq!(state.keeper_cell, cell(&cb, 2, 3));
}

// ---- permutation windows ----

#[test]
fn single_push_no_change() {
    let cb = compile(&SMALL);
    let mut pushes = vec![(0, Direction::Up)];
    let saved = optimize_permutations(&cb, &mut pushes);
    assert_eq!(saved, 0);
}

#[test]
fn permutation_window_empty_pushes_no_crash() {
    let cb = compile(&SMALL);
    let mut pushes = Vec::new();
    let saved = optimize_permutations(&cb, &mut pushes);
    assert_eq!(saved, 0);
}

#[test]
fn simulate_moves_basic() {
    let cb = compile(&SMALL);
    let state = initial_state(&cb);
    let result = simulate_moves(&cb, &state, &[(0, Direction::Left)]);
    assert!(result.is_some());
}

#[test]
fn simulate_moves_exact() {
    let cb = compile(&SMALL);
    let state = initial_state(&cb);
    assert_eq!(simulate_moves(&cb, &state, &[(0, Direction::Left)]), Some(1));
    assert_eq!(simulate_moves(&cb, &state, &[(0, Direction::Up), (0, Direction::Right)]), Some(6));
    // Right: the keeper walks round the box, (2,3) -> (1,3) -> (1,2) -> (1,1) -> (2,1), and pushes.
    assert_eq!(simulate_moves(&cb, &state, &[(0, Direction::Right)]), Some(5));
    // Down twice: the second push runs into the wall.
    assert_eq!(simulate_moves(&cb, &state, &[(0, Direction::Down), (0, Direction::Down)]), None);
    assert_eq!(count_total_moves(&cb, &[(0, Direction::Up), (0, Direction::Right)]), 6);
    assert_eq!(count_total_moves(&cb, &[(0, Direction::Down), (0, Direction::Down)]), u32::MAX);
}

#[test]
fn permutation_keeps_push_count() {
    let cb = compile(&OPEN_ROOM);
    let mut pushes = vec![(0, Direction::Up), (1, Direction::Up), (0, Direction::Up), (1, Direction::Up)];
    let before = replay_pushes(&cb, &pushes).box_cells;
    optimize_permutations(&cb, &mut pushes);
    assert_eq!(pushes.len(), 4);
    assert_eq!(replay_pushes(&cb, &pushes).box_cells, before);
}

// ---- walk windows ----

#[test]
fn no_walks_no_change() {
    let cb = compile(&SMALL);
    let mut steps = vec![(Direction::Left, true)];
    let saved = optimize_walks(&cb, &mut steps);
    assert_eq!(saved, 0);
    assert_eq!(steps.len(), 1);
}

#[test]
fn already_optimal_walks_unchanged() {
    let cb = compile(&SMALL);
    let mut steps = vec![(Direction::Down, false), (Direction::Left, true)];
    let original_len = steps.len();
    let saved = optimize_walks(&cb, &mut steps);
    assert_eq!(saved, 0);
    assert_eq!(steps.len(), original_len);
}

#[test]
fn redundant_walk_shortened() {
    let cb = compile(&["OOOOOOO", "OX   SO", "O     O", "O     O", "O  R  O", "OOOOOOO"]);
    let mut steps = vec![
        (Direction::Up, false),
        (Direction::Left, false),
        (Direction::Left, false),
        (Direction::Down, false),
    ];
    let saved = optimize_walks(&cb, &mut steps);
    assert!(saved >= 2, "should save at least 2 steps, saved {}", saved);
    assert_eq!(steps.len(), 2);
}

#[test]
fn walk_detour_replaced_exactly() {
    let cb = compile(&["OOOOOOO", "OX   SO", "O     O", "O     O", "O  R  O", "OOOOOOO"]);
    let mut steps = vec![
        (Direction::Up, false),
        (Direction::Left, false),
        (Direction::Left, false),
        (Direction::Down, false),
    ];
    assert_eq!(optimize_walks(&cb, &mut steps), 2);
    assert_eq!(steps, vec![(Direction::Left, false), (Direction::Left, false)]);
    // A walk back to the start becomes no walk at all.
    let mut round_trip = vec![(Direction::Up, false), (Direction::Down, false)];
    assert_eq!(optimize_walks(&cb, &mut round_trip), 2);
    assert!(round_trip.is_empty());
}

// ---- bridge search ----

#[test]
fn no_doorways_no_change() {
    let cb = compile(&SMALL);
    let deadlocks = DeadlockChecker::new(&cb);
    let rooms = RoomMap::analyze(&cb);
    let mut pushes = vec![(0, Direction::Up), (0, Direction::Right)];
    let saved = bridge_astar_improve(&cb, &deadlocks, &rooms, &mut pushes);
    assert_eq!(saved, 0);
}

#[test]
fn bridge_astar_empty_pushes_no_crash() {
    let cb = compile(&SMALL);
    let deadlocks = DeadlockChecker::new(&cb);
    let rooms = RoomMap::analyze(&cb);
    let mut pushes = Vec::new();
    let saved = bridge_astar_improve(&cb, &deadlocks, &rooms, &mut pushes);
    assert_eq!(saved, 0);
}

#[test]
fn find_crossings_no_doorways() {
    let cb = compile(&SMALL);
    let rooms = RoomMap::analyze(&cb);
    let pushes = vec![(0, Direction::Up), (0, Direction::Right)];
    let crossings = find_doorway_crossings(&cb, &rooms, &pushes);
    assert!(crossings.is_empty());
}

#[test]
fn heuristic_zero_at_target() {
    let cb = compile(&SMALL);
    let boxes: Vec<(u16, u8)> = cb.initial_box_cells.iter().map(|&(c, l)| (c, l.0)).collect();
    assert_eq!(heuristic_to_target(&cb, &boxes, &boxes), 0);
}

#[test]
fn heuristic_positive_when_different() {
    let cb = compile(&SMALL);
    let current: Vec<(u16, u8)> = cb.initial_box_cells.iter().map(|&(c, l)| (c, l.0)).collect();
    let target = vec![(cb.goal_cells[0].0, cb.goal_cells[0].1 .0)];
    let h = heuristic_to_target(&cb, &current, &target);
    assert!(h > 0);
}

#[test]
fn heuristic_counts_places() {
    let cb = compile(&SMALL);
    assert_eq!(heuristic_to_target(&cb, &[(5, 0), (7, 1)], &[(5, 2), (8, 1)]), 1);
    assert_eq!(heuristic_to_target(&cb, &[(1, 0), (2, 0), (3, 0)], &[(4, 0)]), 1);
}

#[test]
fn crossings_found_exactly() {
    let cb = compile(&TWO_ROOMS);
    let rooms = RoomMap::analyze(&cb);
    let pushes = vec![
        (0, Direction::Right),
        (0, Direction::Right),
        (0, Direction::Right),
        (0, Direction::Up),
        (0, Direction::Up),
    ];
    // The fourth push moves the box onto the doorway below the corridor, the fifth off it.
    assert_eq!(find_doorway_crossings(&cb, &rooms, &pushes), vec![3, 4]);
}

#[test]
fn improvement_keeps_final_boxes() {
    let cb = compile(&["OOOOOOO", "O     O", "O RX  O", "O     O", "O    SO", "OOOOOOO"]);
    let deadlocks = DeadlockChecker::new(&cb);
    let mut pushes = vec![(0, Direction::Right), (0, Direction::Left), (0, Direction::Right)];
    let before = replay_pushes(&cb, &pushes).box_cells;
    let report = improve_push_sequence(&cb, &deadlocks, &mut pushes);
    assert_eq!(pushes.len(), 1);
    assert!(report.pushes_saved >= 2);
    assert_eq!(replay_pushes(&cb, &pushes).box_cells, before);
}

// ---- searches that start on their target ----

const CORRIDOR_ROOM: [&str; 6] = ["OOOOOOO", "O     O", "O RX  O", "O     O", "O    SO", "OOOOOOO"];
const DOOR_ABOVE: [&str; 7] =
    ["OOOOOOOOO", "OS      O", "OOOOO OOO", "O       O", "O    X  O", "O   R   O", "OOOOOOOOO"];

#[test]
fn search_from_target_is_empty() {
    let cb = compile(&CORRIDOR_ROOM);
    let deadlocks = DeadlockChecker::new(&cb);
    let start = replay_pushes(&cb, &[]);
    let target = start.box_cells.clone();
    assert_eq!(find_shorter_push_sequence(&cb, &deadlocks, &start, &target, 3), Some(vec![]));
    let pre = initial_state(&cb);
    let original = vec![(0, Direction::Right), (0, Direction::Left)];
    assert_eq!(try_swapped_order(&cb, &deadlocks, &pre, &target, &original), Some(vec![]));
    assert_eq!(astar_segment(&cb, &deadlocks, &pre, &target, 2), Some(vec![]));
}

#[test]
fn swapped_order_needs_a_different_sequence() {
    let cb = compile(&CORRIDOR_ROOM);
    let deadlocks = DeadlockChecker::new(&cb);
    let pre = initial_state(&cb);
    let target = pre.box_cells.clone();
    // The only sequence of no pushes is the original itself.
    assert_eq!(try_swapped_order(&cb, &deadlocks, &pre, &target, &[]), None);
}

#[test]
fn idle_window_removed() {
    let cb = compile(&CORRIDOR_ROOM);
    let deadlocks = DeadlockChecker::new(&cb);
    let mut pushes = vec![(0, Direction::Right), (0, Direction::Left), (0, Direction::Right), (0, Direction::Left)];
    let saved = optimize_pushes(&cb, &deadlocks, &mut pushes);
    assert_eq!(saved, 4);
    assert!(pushes.is_empty());
}

#[test]
fn idle_lead_runs_removed() {
    let cb = compile(&OPEN_ROOM);
    let deadlocks = DeadlockChecker::new(&cb);
    let mut pushes =
        vec![(0, Direction::Up), (0, Direction::Down), (1, Direction::Down), (1, Direction::Up), (0, Direction::Up)];
    let before = total_walk_cost(&cb, &pushes);
    let saved = reschedule_boxes(&cb, &deadlocks, &mut pushes);
    assert_eq!(pushes, vec![(0, Direction::Up)]);
    assert_eq!(saved, before - total_walk_cost(&cb, &pushes));
    assert!(saved > 0);
}

#[test]
fn idle_lead_piece_removed() {
    let cb = compile(&DOOR_ABOVE);
    let deadlocks = DeadlockChecker::new(&cb);
    let rooms = RoomMap::analyze(&cb);
    let mut pushes = vec![(0, Direction::Right), (0, Direction::Left), (0, Direction::Up), (0, Direction::Up)];
    assert_eq!(find_doorway_crossings(&cb, &rooms, &pushes), vec![2, 3]);
    let saved = bridge_astar_improve(&cb, &deadlocks, &rooms, &mut pushes);
    assert_eq!(saved, 2);
    assert_eq!(pushes, vec![(0, Direction::Up), (0, Direction::Up)]);
}
