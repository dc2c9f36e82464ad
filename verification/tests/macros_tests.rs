use sokomind::board::parse_board;
use sokomind::compiled_board::{CompiledBoard, INVALID_CELL};
use sokomind::counters::SearchCounters;
use sokomind::deadlock::DeadlockChecker;
use sokomind::dense_state::DenseState;
use sokomind::macros::forced_push::apply_forced_push;
use sokomind::macros::goal_macro::SafeGoalMap;
use sokomind::macros::tunnel::TunnelMap;
use sokomind::macros::MacroEngine;
use sokomind::position::{Direction, Position};

fn compile(rows: &[&str]) -> CompiledBoard {
    let board = parse_board(rows).unwrap();
    CompiledBoard::from_parsed(&board)
}

// ---- forced pushes ----

#[test]
fn no_forced_push_when_branching() {
    let cb = compile(&["OOOOOOO", "OSS   O", "O     O", "O XX  O", "O  R  O", "O     O", "OOOOOOO"]);
    let deadlocks = DeadlockChecker::new(&cb);
    let state = DenseState::from_initial(&cb);
    let mut counters = SearchCounters::default();

    let result = apply_forced_push(&cb, &state, &deadlocks, &mut counters);
    assert!(result.is_none(), "branching state should not chain");
    assert_eq!(counters, SearchCounters::default());
}

#[test]
fn forced_push_in_corridor() {
    let cb = compile(&["OOOOO", "O  SO", "O XRO", "O   O", "OOOOO"]);
    let deadlocks = DeadlockChecker::new(&cb);
    let state = DenseState::from_initial(&cb);
    let mut counters = SearchCounters::default();

    let result = apply_forced_push(&cb, &state, &deadlocks, &mut counters);
    let _ = result;
}

#[test]
fn forced_chain_runs_to_the_goal() {
    // A one-row corridor: the only push is to the right, twice, onto the goal.
    let cb = compile(&["OOOOOOO", "OR X SO", "OOOOOOO"]);
    let deadlocks = DeadlockChecker::new(&cb);
    let state = DenseState::from_initial(&cb);
    let mut counters = SearchCounters::default();

    let result = apply_forced_push(&cb, &state, &deadlocks, &mut counters).unwrap();
    assert_eq!(result.pushes, vec![(0, Direction::Right), (0, Direction::Right)]);
    let goal = cb.pos_to_cell(Position::new(1, 5));
    assert_eq!(result.final_state.box_cells, vec![(goal, 0)]);
    assert_eq!(result.final_state.keeper_cell, cb.pos_to_cell(Position::new(1, 4)));
    assert_eq!(result.final_state.moves, 2);
    assert_eq!(result.final_state.pushes, 2);
    assert!(result.final_state.is_solved(&cb));
    // One successor was generated from the middle state; the chain counts twice.
    assert_eq!(counters.generated, 1);
    assert_eq!(counters.macro_forced_push, 2);
}

#[test]
fn single_forced_push_is_not_a_chain() {
    // One push right puts the box on the goal: a chain of one push.
    let cb = compile(&["OOOOOO", "OR XSO", "OOOOOO"]);
    let deadlocks = DeadlockChecker::new(&cb);
    let state = DenseState::from_initial(&cb);
    let mut counters = SearchCounters::default();

    assert!(apply_forced_push(&cb, &state, &deadlocks, &mut counters).is_none());
    assert_eq!(counters.generated, 0);
    assert_eq!(counters.macro_forced_push, 0);
}

// ---- safe goals ----

#[test]
fn corner_goal_is_safe() {
    let cb = compile(&["OOOOO", "OS  O", "O XRO", "O   O", "OOOOO"]);
    let sgm = SafeGoalMap::analyze(&cb);
    let goal_cell = cb.pos_to_cell(Position::new(1, 1));
    assert!(sgm.is_safe(goal_cell));
}

#[test]
fn mid_wall_goal_not_safe() {
    let cb = compile(&["OOOOOOO", "O     O", "O  S  O", "O XR  O", "O     O", "OOOOOOO"]);
    let sgm = SafeGoalMap::analyze(&cb);
    let goal_cell = cb.pos_to_cell(Position::new(2, 3));
    assert!(!sgm.is_safe(goal_cell));
}

#[test]
fn center_goal_not_safe() {
    let cb = compile(&["OOOOOOO", "O     O", "O  S  O", "O XR  O", "O     O", "OOOOOOO"]);
    let sgm = SafeGoalMap::analyze(&cb);
    let goal_cell = cb.pos_to_cell(Position::new(2, 3));
    assert!(!sgm.is_safe(goal_cell));
}

#[test]
fn committed_check() {
    let cb = compile(&["OOOOO", "OS  O", "O XRO", "O   O", "OOOOO"]);
    let sgm = SafeGoalMap::analyze(&cb);

    let goal_cell = cb.pos_to_cell(Position::new(1, 1));
    let goal_label = cb.goal_cells[0].1 .0;
    assert!(sgm.is_committed(&cb, goal_cell, goal_label));
    assert!(!sgm.is_committed(&cb, goal_cell, goal_label + 1));
    let other_cell = cb.pos_to_cell(Position::new(2, 2));
    assert!(!sgm.is_committed(&cb, other_cell, goal_label));
}

#[test]
fn corner_without_goal_is_not_safe() {
    let cb = compile(&["OOOOO", "OS  O", "O XRO", "O   O", "OOOOO"]);
    let sgm = SafeGoalMap::analyze(&cb);
    assert!(!sgm.is_safe(cb.pos_to_cell(Position::new(3, 1))));
    assert!(!sgm.is_safe(INVALID_CELL));
}

// ---- tunnels ----

#[test]
fn detect_horizontal_tunnel() {
    let cb = compile(&["OOOOOO", "O    O", "OX  SO", "O    O", "O R  O", "OOOOOO"]);
    let tm = TunnelMap::analyze(&cb);
    let _ = tm;
}

#[test]
fn narrow_corridor_is_tunnel() {
    let cb = compile(&["OOOOO", "OS  O", "OO OO", "OO OO", "OX  O", "OR  O", "OOOOO"]);
    let tm = TunnelMap::analyze(&cb);
    let cell = cb.pos_to_cell(Position::new(2, 2));
    if cell != INVALID_CELL {
        assert!(tm.is_tunnel(cell), "(2,2) should be vertical tunnel");
    }
}

#[test]
fn goal_cell_not_tunnel() {
    let cb = compile(&["OOOOO", "OS  O", "OO OO", "OO OO", "OX  O", "OR  O", "OOOOO"]);
    let tm = TunnelMap::analyze(&cb);
    for &(goal_cell, _) in &cb.goal_cells {
        assert!(!tm.is_tunnel(goal_cell), "goal cells are never tunnels");
    }
}

#[test]
fn open_room_no_tunnels() {
    let cb = compile(&["OOOOOOO", "OSS   O", "O     O", "O XX  O", "O  R  O", "O     O", "OOOOOOO"]);
    let tm = TunnelMap::analyze(&cb);
    for cell in 0..cb.cell_count {
        assert!(!tm.is_tunnel(cell), "open room should have no tunnels");
    }
}

#[test]
fn tunnel_slide_reaches_the_exit() {
    // Pushing up into (3,2) slides the box through (2,2) out onto (1,2).
    let cb = compile(&["OOOOO", "OS  O", "OO OO", "OO OO", "OX  O", "OR  O", "OOOOO"]);
    let tm = TunnelMap::analyze(&cb);
    let entry = cb.pos_to_cell(Position::new(3, 2));
    let exit = cb.pos_to_cell(Position::new(1, 2));
    assert!(tm.is_tunnel(entry));
    assert_eq!(tm.apply_tunnel(&cb, entry, Direction::Up, &[]), Some((exit, 2)));
    // Across the tunnel's axis nothing happens.
    assert_eq!(tm.apply_tunnel(&cb, entry, Direction::Left, &[]), None);
    // A box right ahead stops the slide at once.
    let blocker = cb.pos_to_cell(Position::new(2, 2));
    assert_eq!(tm.apply_tunnel(&cb, entry, Direction::Up, &[(blocker, 0)]), None);
    // A cell that is no tunnel gives nothing.
    assert_eq!(tm.apply_tunnel(&cb, exit, Direction::Up, &[]), None);
    assert!(!tm.is_tunnel(INVALID_CELL));
}

#[test]
fn macro_engine_combines_both_maps() {
    let cb = compile(&["OOOOO", "OS  O", "OO OO", "OO OO", "OX  O", "OR  O", "OOOOO"]);
    let engine = MacroEngine::new(&cb);
    assert!(engine.tunnels.is_tunnel(cb.pos_to_cell(Position::new(2, 2))));
    assert!(engine.safe_goals.is_safe(cb.pos_to_cell(Position::new(1, 1))));
}
