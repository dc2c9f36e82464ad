use sokomind::board::{parse_board, ParsedBoard};
use sokomind::compiled_board::{CompiledBoard, INVALID_CELL};
use sokomind::position::{Direction, Position};
use sokomind::reachability::{
    can_reach, canonical_keeper, contains_cell, find_keeper_path, keeper_distance, keeper_reachable,
};
use sokomind::topology::BoardTopology;

fn test_board() -> ParsedBoard {
    let rows = &["OOOOO", "O  SO", "O XRO", "O   O", "OOOOO"];
    parse_board(rows).unwrap()
}

fn setup() -> CompiledBoard {
    CompiledBoard::from_parsed(&test_board())
}

// ---- compiled board ----

#[test]
fn cell_count_matches_floor() {
    let board = test_board();
    let cb = CompiledBoard::from_parsed(&board);
    assert_eq!(cb.cell_count as usize, board.floor.len());
}

#[test]
fn position_roundtrip() {
    let board = test_board();
    let cb = CompiledBoard::from_parsed(&board);
    for cell in 0..cb.cell_count {
        let pos = cb.cell_to_pos(cell);
        assert_eq!(cb.pos_to_cell(pos), cell);
    }
}

#[test]
fn neighbor_consistency() {
    let board = test_board();
    let cb = CompiledBoard::from_parsed(&board);
    for cell in 0..cb.cell_count {
        for dir in Direction::ALL {
            let n = cb.neighbor(cell, dir);
            if n != INVALID_CELL {
                let back = cb.neighbor(n, dir.opposite());
                assert_eq!(back, cell);
            }
        }
    }
}

#[test]
fn walls_excluded() {
    let board = test_board();
    let cb = CompiledBoard::from_parsed(&board);
    for &w in &board.walls {
        assert_eq!(cb.pos_to_cell(w), INVALID_CELL);
    }
}

#[test]
fn goal_cell_found() {
    let board = test_board();
    let cb = CompiledBoard::from_parsed(&board);
    assert_eq!(cb.goal_cells.len(), 1);
    let goal_pos = cb.cell_to_pos(cb.goal_cells[0].0);
    assert_eq!(goal_pos, Position::new(1, 3));
}

#[test]
fn reverse_push_distance_zero_at_goal() {
    let board = test_board();
    let cb = CompiledBoard::from_parsed(&board);
    let goal_cell = cb.goal_cells[0].0;
    assert_eq!(cb.reverse_push_distance(0, goal_cell), 0);
}

#[test]
fn reverse_push_distance_reachable() {
    let board = test_board();
    let cb = CompiledBoard::from_parsed(&board);
    let box_cell = cb.pos_to_cell(Position::new(2, 2));
    let dist = cb.reverse_push_distance(0, box_cell);
    assert!(dist < u16::MAX, "box should be reachable from goal");
    assert!(dist > 0, "box is not on goal");
}

#[test]
fn out_of_bounds_is_invalid() {
    let board = test_board();
    let cb = CompiledBoard::from_parsed(&board);
    assert_eq!(cb.pos_to_cell(Position::new(-1, 0)), INVALID_CELL);
    assert_eq!(cb.pos_to_cell(Position::new(0, 100)), INVALID_CELL);
}

#[test]
fn compiled_board_exact_layout() {
    // Floor cells are numbered row by row.
    let cb = setup();
    assert_eq!(cb.cell_count, 9);
    assert_eq!(cb.width, 5);
    assert_eq!(cb.height, 5);
    assert_eq!(cb.cell_to_pos(0), Position::new(1, 1));
    assert_eq!(cb.cell_to_pos(8), Position::new(3, 3));
    assert_eq!(cb.robot_cell, 5);
    assert_eq!(cb.initial_box_cells.len(), 1);
    assert_eq!(cb.initial_box_cells[0].0, 4);
    assert_eq!(cb.goal_cells[0].0, 2);
    assert!(cb.is_goal(2));
    assert!(!cb.is_goal(4));
    assert!(cb.goal_matches(2, 0));
    assert!(!cb.goal_matches(2, 1));
    assert_eq!(cb.goal_label_at(2).map(|l| l.0), Some(0));
    assert_eq!(cb.goal_label_at(4), None);
    assert_eq!(cb.neighbor(4, Direction::Up), 1);
    assert_eq!(cb.neighbor(4, Direction::Down), 7);
    assert_eq!(cb.neighbor(4, Direction::Left), 3);
    assert_eq!(cb.neighbor(4, Direction::Right), 5);
    assert_eq!(cb.neighbor(0, Direction::Up), INVALID_CELL);
    assert!(cb.wall_set.contains(&Position::new(0, 0)));
}

#[test]
fn reverse_push_distances_exact() {
    // Goal at (1,3). A box at (1,2) is one push away (keeper at (1,1)),
    // a box at (2,3) one push away (keeper at (3,3)), the centre two pushes,
    // and a box in the corner (1,1) can never reach the goal.
    let cb = setup();
    assert_eq!(cb.reverse_push_distance(0, cb.pos_to_cell(Position::new(1, 2))), 1);
    assert_eq!(cb.reverse_push_distance(0, cb.pos_to_cell(Position::new(2, 3))), 1);
    assert_eq!(cb.reverse_push_distance(0, cb.pos_to_cell(Position::new(2, 2))), 2);
    assert_eq!(cb.reverse_push_distance(0, cb.pos_to_cell(Position::new(1, 1))), u16::MAX);
    assert_eq!(cb.reverse_push_distance(0, cb.pos_to_cell(Position::new(3, 3))), u16::MAX);
}

// ---- topology ----

#[test]
fn corner_detection() {
    let cb = setup();
    let topo = BoardTopology::analyze(&cb);

    let corner = cb.pos_to_cell(Position::new(1, 1));
    assert!(topo.is_corner(corner), "(1,1) is a corner");

    let non_corner = cb.pos_to_cell(Position::new(2, 2));
    assert!(!topo.is_corner(non_corner), "(2,2) is not a corner");
}

#[test]
fn goals_not_dead() {
    let cb = setup();
    let topo = BoardTopology::analyze(&cb);

    for &(gc, _) in &cb.goal_cells {
        assert!(!topo.is_dead(gc), "goal cell should not be dead");
    }
}

#[test]
fn non_goal_corners_are_dead() {
    let cb = setup();
    let topo = BoardTopology::analyze(&cb);

    let corner = cb.pos_to_cell(Position::new(1, 1));
    assert!(topo.is_dead(corner));
}

#[test]
fn wall_line_dead_cells() {
    let rows = &["OOOOOO", "O   SO", "O XR O", "OOOOOO"];
    let board = parse_board(rows).unwrap();
    let cb = CompiledBoard::from_parsed(&board);
    let topo = BoardTopology::analyze(&cb);

    let c = cb.pos_to_cell(Position::new(2, 1));
    assert!(topo.is_dead(c), "(2,1) should be dead");
}

#[test]
fn wall_line_between_dead_corners_is_dead() {
    // The bottom row runs from corner (2,1) to corner (2,4) along the wall
    // with no goal on it, so all of it is dead; the top row holds the goal.
    let rows = &["OOOOOO", "O   SO", "O XR O", "OOOOOO"];
    let board = parse_board(rows).unwrap();
    let cb = CompiledBoard::from_parsed(&board);
    let topo = BoardTopology::analyze(&cb);
    for col in 1..5 {
        assert!(topo.is_dead(cb.pos_to_cell(Position::new(2, col))));
    }
    assert!(topo.is_dead(cb.pos_to_cell(Position::new(1, 1))));
    assert!(!topo.is_dead(cb.pos_to_cell(Position::new(1, 2))));
    assert!(!topo.is_dead(cb.pos_to_cell(Position::new(1, 3))));
    assert!(!topo.is_dead(cb.pos_to_cell(Position::new(1, 4))));
    assert!(!topo.is_corner(cb.pos_to_cell(Position::new(1, 4))));
}

#[test]
fn dead_cells_never_reach_a_goal() {
    let cb = setup();
    let topo = BoardTopology::analyze(&cb);
    for cell in 0..cb.cell_count {
        if topo.is_dead(cell) {
            assert_eq!(cb.reverse_push_distance(0, cell), u16::MAX);
        }
    }
}

// ---- reachability ----

#[test]
fn reachable_without_boxes() {
    let cb = setup();
    let reach = keeper_reachable(&cb, cb.robot_cell, &[]);
    let count = reach.iter().filter(|&&v| v).count();
    assert_eq!(count, cb.cell_count as usize);
}

#[test]
fn box_blocks_path() {
    let cb = setup();
    let box_cell = cb.initial_box_cells[0].0;
    let mut boxes: Vec<(u16, u8)> = vec![(box_cell, 0)];
    boxes.sort();
    let reach = keeper_reachable(&cb, cb.robot_cell, &boxes);
    assert!(!reach[box_cell as usize]);
}

#[test]
fn canonical_is_minimum() {
    let cb = setup();
    let canon = canonical_keeper(&cb, cb.robot_cell, &[]);
    assert!(canon <= cb.robot_cell);
    for c in 0..canon {
        assert_eq!(cb.pos_to_cell(cb.cell_to_pos(c)), c);
    }
}

#[test]
fn can_reach_self() {
    let cb = setup();
    assert!(can_reach(&cb, cb.robot_cell, cb.robot_cell, &[]));
}

#[test]
fn keeper_distance_to_self_is_zero() {
    let cb = setup();
    assert_eq!(keeper_distance(&cb, cb.robot_cell, cb.robot_cell, &[]), Some(0));
}

#[test]
fn keeper_distance_adjacent() {
    let cb = setup();
    let target = cb.pos_to_cell(Position::new(3, 3));
    let dist = keeper_distance(&cb, cb.robot_cell, target, &[]);
    assert_eq!(dist, Some(1));
}

#[test]
fn keeper_distance_blocked() {
    let cb = setup();
    let box_cell = cb.pos_to_cell(Position::new(1, 1));
    let mut sorted_boxes: Vec<(u16, u8)> = vec![
        (cb.pos_to_cell(Position::new(1, 2)), 0),
        (cb.pos_to_cell(Position::new(2, 2)), 0),
        (cb.pos_to_cell(Position::new(3, 2)), 0),
    ];
    sorted_boxes.sort();
    let dist = keeper_distance(&cb, cb.robot_cell, box_cell, &sorted_boxes);
    assert_eq!(dist, None);
}

#[test]
fn keeper_distance_around_a_box() {
    // Robot at (2,3), box at (2,2): reaching (2,1) takes a detour of four steps.
    let cb = setup();
    let boxes = vec![(cb.pos_to_cell(Position::new(2, 2)), 0u8)];
    let target = cb.pos_to_cell(Position::new(2, 1));
    assert_eq!(keeper_distance(&cb, cb.robot_cell, target, &boxes), Some(4));
    assert_eq!(keeper_distance(&cb, cb.robot_cell, INVALID_CELL, &boxes), None);
}

#[test]
fn canonical_keeper_with_boxes_blocking() {
    // Boxes wall off the left column; the robot's zone starts at (1,3).
    let cb = setup();
    let mut boxes = vec![
        (cb.pos_to_cell(Position::new(1, 2)), 0u8),
        (cb.pos_to_cell(Position::new(2, 2)), 0u8),
        (cb.pos_to_cell(Position::new(3, 2)), 0u8),
    ];
    boxes.sort();
    assert_eq!(canonical_keeper(&cb, cb.robot_cell, &boxes), 2);
    assert_eq!(canonical_keeper(&cb, cb.pos_to_cell(Position::new(2, 1)), &boxes), 0);
    assert!(!can_reach(&cb, cb.robot_cell, 0, &boxes));
    assert!(can_reach(&cb, cb.robot_cell, 8, &boxes));
}

#[test]
fn keeper_path_is_shortest_and_arrives() {
    let cb = setup();
    let boxes = vec![(cb.pos_to_cell(Position::new(2, 2)), 0u8)];
    let target = cb.pos_to_cell(Position::new(2, 1));
    let path = find_keeper_path(&cb, cb.robot_cell, target, &boxes).unwrap();
    assert_eq!(path.len(), 4);
    let mut cell = cb.robot_cell;
    for d in &path {
        cell = cb.neighbor(cell, *d);
        assert_ne!(cell, INVALID_CELL);
        assert!(!contains_cell(&boxes, cell));
    }
    assert_eq!(cell, target);
    assert_eq!(find_keeper_path(&cb, cb.robot_cell, cb.robot_cell, &boxes), Some(Vec::new()));
    let mut walls = vec![
        (cb.pos_to_cell(Position::new(1, 2)), 0u8),
        (cb.pos_to_cell(Position::new(2, 2)), 0u8),
        (cb.pos_to_cell(Position::new(3, 2)), 0u8),
    ];
    walls.sort();
    assert_eq!(find_keeper_path(&cb, cb.robot_cell, 0, &walls), None);
}

#[test]
fn contains_cell_binary_search() {
    let boxes = vec![(1u16, 0u8), (4, 2), (9, 0)];
    assert!(contains_cell(&boxes, 1));
    assert!(contains_cell(&boxes, 4));
    assert!(contains_cell(&boxes, 9));
    assert!(!contains_cell(&boxes, 0));
    assert!(!contains_cell(&boxes, 5));
    assert!(!contains_cell(&[], 5));
}
