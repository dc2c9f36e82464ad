use sokomind::board::parse_board;
use sokomind::compiled_board::{CompiledBoard, INVALID_CELL};
use sokomind::dense_state::DenseState;
use sokomind::position::{Direction, Position};
use sokomind::search::successors::generate_successors;
use sokomind::transposition::TranspositionTable;

fn setup() -> (CompiledBoard, DenseState) {
    let rows = &["OOOOO", "O  SO", "O XRO", "O   O", "OOOOO"];
    let board = parse_board(rows).unwrap();
    let cb = CompiledBoard::from_parsed(&board);
    let state = DenseState::from_initial(&cb);
    (cb, state)
}

// ---- dense state ----

#[test]
fn initial_state_from_board() {
    let (cb, state) = setup();
    assert_eq!(state.box_cells.len(), 1);
    assert_eq!(state.moves, 0);
    assert_eq!(state.pushes, 0);
    assert!(!state.is_solved(&cb));
}

#[test]
fn box_cells_sorted() {
    let rows = &["OOOOOOO", "O     O", "O XAR O", "O  Sa O", "OOOOOOO"];
    let board = parse_board(rows).unwrap();
    let cb = CompiledBoard::from_parsed(&board);
    let state = DenseState::from_initial(&cb);
    let cells: Vec<u16> = state.box_cells.iter().map(|&(c, _)| c).collect();
    let mut sorted = cells.clone();
    sorted.sort();
    assert_eq!(cells, sorted);
}

#[test]
fn solved_detection() {
    let (cb, _) = setup();
    let goal_cell = cb.goal_cells[0].0;
    let goal_label = cb.goal_cells[0].1;
    let state = DenseState {
        keeper_cell: 0,
        keeper_zone: 0,
        box_cells: vec![(goal_cell, goal_label.0)],
        moves: 5,
        pushes: 2,
    };
    assert!(state.is_solved(&cb));
}

#[test]
fn initial_state_fields_exact() {
    // Keeper at cell 5 (2,3); every free cell is reachable, so its zone is 0.
    let (cb, state) = setup();
    assert_eq!(state.keeper_cell, cb.robot_cell);
    assert_eq!(state.keeper_zone, 0);
    assert_eq!(state.box_cells, vec![(cb.pos_to_cell(Position::new(2, 2)), 0)]);
}

#[test]
fn wrong_label_on_goal_is_not_solved() {
    let (cb, _) = setup();
    let state = DenseState {
        keeper_cell: 0,
        keeper_zone: 0,
        box_cells: vec![(cb.goal_cells[0].0, 3)],
        moves: 0,
        pushes: 0,
    };
    assert!(!state.is_solved(&cb));
}

// ---- successors ----

#[test]
fn initial_state_has_successors() {
    let (cb, state) = setup();
    let succs = generate_successors(&cb, &state);
    assert!(!succs.is_empty());
}

#[test]
fn push_count_increments() {
    let (cb, state) = setup();
    let succs = generate_successors(&cb, &state);
    for s in &succs {
        assert_eq!(s.state.pushes, 1);
    }
}

#[test]
fn no_push_into_wall() {
    let (cb, state) = setup();
    let succs = generate_successors(&cb, &state);
    for s in &succs {
        for &(cell, _) in &s.state.box_cells {
            assert_ne!(cell, INVALID_CELL);
            assert!(!cb.wall_set.contains(&cb.cell_to_pos(cell)));
        }
    }
}

#[test]
fn no_push_into_box() {
    let rows = &["OOOOOOO", "O SS  O", "O XXR O", "O     O", "OOOOOOO"];
    let board = parse_board(rows).unwrap();
    let cb = CompiledBoard::from_parsed(&board);
    let state = DenseState::from_initial(&cb);

    let succs = generate_successors(&cb, &state);
    for s in &succs {
        let positions: Vec<u16> = s.state.box_cells.iter().map(|&(c, _)| c).collect();
        let unique: std::collections::HashSet<u16> = positions.iter().copied().collect();
        assert_eq!(positions.len(), unique.len(), "boxes must not overlap");
    }
}

#[test]
fn keeper_must_reach_push_position() {
    let (cb, state) = setup();
    let succs = generate_successors(&cb, &state);
    for s in &succs {
        assert!(s.state.keeper_zone < cb.cell_count);
    }
}

#[test]
fn solve_trivial_puzzle() {
    let (cb, state) = setup();

    let mut queue = std::collections::VecDeque::new();
    let mut visited = std::collections::HashSet::new();
    queue.push_back(state.clone());
    visited.insert((state.keeper_zone, state.box_cells.clone()));

    let mut found = false;
    while let Some(current) = queue.pop_front() {
        if current.is_solved(&cb) {
            found = true;
            break;
        }
        for succ in generate_successors(&cb, &current) {
            let key = (succ.state.keeper_zone, succ.state.box_cells.clone());
            if visited.insert(key) {
                queue.push_back(succ.state);
            }
        }
    }
    assert!(found, "trivial puzzle should be solvable");
}

#[test]
fn box_cells_stay_sorted() {
    let rows = &["OOOOOOO", "O SS  O", "O XXR O", "O     O", "OOOOOOO"];
    let board = parse_board(rows).unwrap();
    let cb = CompiledBoard::from_parsed(&board);
    let state = DenseState::from_initial(&cb);

    for succ in generate_successors(&cb, &state) {
        let cells: Vec<u16> = succ.state.box_cells.iter().map(|&(c, _)| c).collect();
        let mut sorted = cells.clone();
        sorted.sort();
        assert_eq!(cells, sorted, "box_cells must remain sorted");
    }
}

#[test]
fn successors_exact_for_single_box() {
    // The box at (2,2) can be pushed in all four directions: the keeper
    // reaches every side of it, and every target cell is free floor.
    let (cb, state) = setup();
    let succs = generate_successors(&cb, &state);
    assert_eq!(succs.len(), 4);
    let center = cb.pos_to_cell(Position::new(2, 2));
    for s in &succs {
        assert_eq!(s.box_index, 0);
        let target = cb.neighbor(center, s.direction);
        assert_eq!(s.state.box_cells, vec![(target, 0)]);
        assert_eq!(s.state.keeper_cell, center);
        assert_eq!(s.state.moves, 1);
        assert_eq!(s.state.pushes, 1);
    }
    let dirs: Vec<Direction> = succs.iter().map(|s| s.direction).collect();
    for d in Direction::ALL {
        assert!(dirs.contains(&d));
    }
}

#[test]
fn blocked_side_gives_no_push() {
    // Boxes at (2,2) and (2,3): the right box cannot be pushed left, the
    // left box cannot be pushed right.
    let rows = &["OOOOOOO", "O SS  O", "O XXR O", "O     O", "OOOOOOO"];
    let board = parse_board(rows).unwrap();
    let cb = CompiledBoard::from_parsed(&board);
    let state = DenseState::from_initial(&cb);
    for s in generate_successors(&cb, &state) {
        if s.box_index == 0 {
            assert_ne!(s.direction, Direction::Right);
        } else {
            assert_ne!(s.direction, Direction::Left);
        }
    }
}

// ---- transposition ----

#[test]
fn insert_new_returns_true() {
    let mut tt = TranspositionTable::new();
    assert!(tt.insert(123, 5, 20));
    assert_eq!(tt.len(), 1);
}

#[test]
fn duplicate_returns_false() {
    let mut tt = TranspositionTable::new();
    tt.insert(123, 5, 20);
    assert!(!tt.insert(123, 5, 20));
    assert!(!tt.insert(123, 6, 10));
}

#[test]
fn better_pushes_replaces() {
    let mut tt = TranspositionTable::new();
    tt.insert(123, 5, 20);
    assert!(tt.insert(123, 4, 25));
    let entry = tt.get(123).unwrap();
    assert_eq!(entry.pushes, 4);
    assert_eq!(entry.moves, 25);
}

#[test]
fn same_pushes_fewer_moves_replaces() {
    let mut tt = TranspositionTable::new();
    tt.insert(123, 5, 20);
    assert!(tt.insert(123, 5, 15));
    let entry = tt.get(123).unwrap();
    assert_eq!(entry.moves, 15);
}

#[test]
fn contains_check() {
    let mut tt = TranspositionTable::new();
    assert!(!tt.contains(42));
    tt.insert(42, 1, 1);
    assert!(tt.contains(42));
}

#[test]
fn memory_estimate_nonzero() {
    let mut tt = TranspositionTable::new();
    for i in 0..100 {
        tt.insert(i, 0, 0);
    }
    assert!(tt.estimated_memory_bytes() > 0);
}

#[test]
fn read_after_store_and_never_worse() {
    let mut tt = TranspositionTable::with_capacity(8);
    assert!(tt.is_empty());
    assert!(tt.insert(7, 3, 9));
    assert_eq!(tt.get(7).map(|e| (e.pushes, e.moves)), Some((3, 9)));
    assert!(!tt.insert(7, 4, 1));
    assert_eq!(tt.get(7).map(|e| (e.pushes, e.moves)), Some((3, 9)));
    assert!(tt.dominates(7, 3, 9));
    assert!(tt.dominates(7, 5, 0));
    assert!(!tt.dominates(7, 2, 100));
    assert!(!tt.dominates(8, 100, 100));
    assert_eq!(tt.get(8).map(|e| e.pushes), None);
    assert_eq!(tt.len(), 1);
    assert!(!tt.is_empty());
}
