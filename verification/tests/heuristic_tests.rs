use sokomind::board::parse_board;
use sokomind::compiled_board::CompiledBoard;
use sokomind::dense_state::DenseState;
use sokomind::heuristic::AssignmentHeuristic;
use sokomind::interaction_boost::count_interaction_penalties;
use sokomind::linear_conflict::count_linear_conflicts;

// The cache keys below stand for the keys a caller derives from a state.
const KEY: u64 = 0x5EED_0000_0000_002A;

const SMALL: [&str; 5] = ["OOOOO", "O  SO", "O XRO", "O   O", "OOOOO"];

fn compile(rows: &[&str]) -> CompiledBoard {
    let board = parse_board(rows).unwrap();
    CompiledBoard::from_parsed(&board)
}

#[test]
fn solved_state_has_zero_heuristic() {
    let rows = &["OOOOO", "O  SO", "O XRO", "O   O", "OOOOO"];
    let board = parse_board(rows).unwrap();
    let cb = CompiledBoard::from_parsed(&board);

    let goal_cell = cb.goal_cells[0].0;
    let goal_label = cb.goal_cells[0].1;

    let state = DenseState {
        keeper_cell: 0,
        keeper_zone: 0,
        box_cells: vec![(goal_cell, goal_label.0)],
        moves: 0,
        pushes: 0,
    };

    let mut heuristic = AssignmentHeuristic::new(&cb);
    let h = heuristic.evaluate(&cb, &state, KEY);
    assert_eq!(h, 0);
}

#[test]
fn initial_state_positive_heuristic() {
    let rows = &["OOOOO", "O  SO", "O XRO", "O   O", "OOOOO"];
    let board = parse_board(rows).unwrap();
    let cb = CompiledBoard::from_parsed(&board);

    let state = DenseState::from_initial(&cb);
    let mut heuristic = AssignmentHeuristic::new(&cb);
    let h = heuristic.evaluate(&cb, &state, KEY);
    assert!(h > 0, "box is not on goal, heuristic should be positive");
}

#[test]
fn heuristic_is_admissible() {
    let rows = &["OOOOO", "O  SO", "O XRO", "O   O", "OOOOO"];
    let board = parse_board(rows).unwrap();
    let cb = CompiledBoard::from_parsed(&board);

    let state = DenseState::from_initial(&cb);
    let mut heuristic = AssignmentHeuristic::new(&cb);
    let h = heuristic.evaluate(&cb, &state, KEY);
    // The box at (2,2) needs to reach goal at (1,3) — at least 2 pushes (up, right)
    assert!(h <= 3, "heuristic should be a lower bound");
}

#[test]
fn cache_hit() {
    let rows = &["OOOOO", "O  SO", "O XRO", "O   O", "OOOOO"];
    let board = parse_board(rows).unwrap();
    let cb = CompiledBoard::from_parsed(&board);

    let state = DenseState::from_initial(&cb);
    let mut heuristic = AssignmentHeuristic::new(&cb);
    let key = KEY;
    let h1 = heuristic.evaluate(&cb, &state, key);
    assert_eq!(heuristic.cache_len(), 1);
    let h2 = heuristic.evaluate(&cb, &state, key);
    assert_eq!(h1, h2);
}

#[test]
fn interference_enhancement_uses_max() {
    // Verify lc and ip are combined via max, not addition.
    // Two boxes that may trigger both linear_conflict and interaction_boost.
    let rows = &[
        "OOOOOOO", "OSS   O", "O     O", "O XXR O", "O     O", "OOOOOOO",
    ];
    let board = parse_board(rows).unwrap();
    let cb = CompiledBoard::from_parsed(&board);
    let state = DenseState::from_initial(&cb);

    let lc = count_linear_conflicts(&cb, &state);
    let ip = count_interaction_penalties(&cb, &state.box_cells);

    let mut heuristic = AssignmentHeuristic::new(&cb);
    let h = heuristic.evaluate(&cb, &state, KEY);

    // Heuristic should use max(lc,ip), not lc+ip.
    assert!(h > 0);
    assert!(h < u32::MAX);
    if lc > 0 && ip > 0 {
        assert!(
            h < 100,
            "heuristic={} seems unreasonably high for a 2-box puzzle",
            h,
        );
    }
}

#[test]
fn typed_labels() {
    let rows = &["OOOOOOO", "O     O", "ORAa  O", "OB  b O", "OOOOOOO"];
    let board = parse_board(rows).unwrap();
    let cb = CompiledBoard::from_parsed(&board);

    let state = DenseState::from_initial(&cb);
    let mut heuristic = AssignmentHeuristic::new(&cb);
    let h = heuristic.evaluate(&cb, &state, KEY);
    assert!(h > 0);
}

#[test]
fn heuristic_small_board_exact() {
    // One push up and one push right bring the box home.
    let cb = compile(&SMALL);
    let state = DenseState::from_initial(&cb);
    let mut heuristic = AssignmentHeuristic::new(&cb);
    assert_eq!(heuristic.evaluate(&cb, &state, KEY), 2);
}

#[test]
fn heuristic_fast_small_board_exact() {
    let cb = compile(&SMALL);
    let state = DenseState::from_initial(&cb);
    let mut heuristic = AssignmentHeuristic::new(&cb);
    assert_eq!(heuristic.fast_evaluate(&cb, &state, KEY), 2);
}

#[test]
fn heuristic_cache_returns_stored_value_for_key() {
    // A hit answers from the cache whatever state comes with the key.
    let cb = compile(&SMALL);
    let solved = DenseState {
        keeper_cell: 0,
        keeper_zone: 0,
        box_cells: vec![(cb.goal_cells[0].0, cb.goal_cells[0].1 .0)],
        moves: 0,
        pushes: 0,
    };
    let initial = DenseState::from_initial(&cb);
    let mut heuristic = AssignmentHeuristic::new(&cb);
    assert_eq!(heuristic.evaluate(&cb, &solved, 7), 0);
    assert_eq!(heuristic.evaluate(&cb, &initial, 7), 0);
    assert_eq!(heuristic.evaluate(&cb, &initial, 8), 2);
    assert_eq!(heuristic.cache_len(), 2);
}

#[test]
fn heuristic_fast_and_full_keys_are_apart() {
    let cb = compile(&SMALL);
    let state = DenseState::from_initial(&cb);
    let mut heuristic = AssignmentHeuristic::new(&cb);
    heuristic.evaluate(&cb, &state, KEY);
    heuristic.fast_evaluate(&cb, &state, KEY);
    assert_eq!(heuristic.cache_len(), 2);
    // The fast key wraps around.
    heuristic.fast_evaluate(&cb, &state, u64::MAX);
    assert_eq!(heuristic.cache_len(), 3);
}

#[test]
fn heuristic_clear_cache_empties() {
    let cb = compile(&SMALL);
    let state = DenseState::from_initial(&cb);
    let mut heuristic = AssignmentHeuristic::new(&cb);
    heuristic.evaluate(&cb, &state, KEY);
    heuristic.fast_evaluate(&cb, &state, KEY);
    heuristic.clear_cache();
    assert_eq!(heuristic.cache_len(), 0);
}

#[test]
fn heuristic_stranded_box_is_max() {
    // The box sits in a corner from which no push brings it to the goal.
    let cb = compile(&["OOOOO", "OX  O", "O  SO", "O R O", "OOOOO"]);
    let state = DenseState::from_initial(&cb);
    let mut heuristic = AssignmentHeuristic::new(&cb);
    assert_eq!(heuristic.evaluate(&cb, &state, KEY), u32::MAX);
}

#[test]
fn heuristic_two_boxes_least_matching() {
    // (3,2) and (3,3) to (1,1) and (1,2): three pushes each at best.
    let cb = compile(&["OOOOOOO", "OSS   O", "O     O", "O XX  O", "O  R  O", "O     O", "OOOOOOO"]);
    let state = DenseState::from_initial(&cb);
    let mut heuristic = AssignmentHeuristic::new(&cb);
    let h = heuristic.evaluate(&cb, &state, KEY);
    assert!(h >= 6);
    assert!(h < u32::MAX);
}
