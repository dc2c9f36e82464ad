use sokomind::board::{parse_board, ParseError, ParsedBoard};
use sokomind::game::{check_solved, create_snapshot, step_snapshot, GameSnapshot};
use sokomind::position::{Direction, Position};
use sokomind::puzzle::{puzzle_fingerprint, Difficulty, PuzzleDefinition};
use sokomind::replay::{decode_action_log, encode_action_log, replay_action_log, ReplayError};
use sokomind::types::Label;

// ---- position ----

#[test]
fn offset_roundtrip() {
    let pos = Position::new(5, 3);
    for dir in Direction::ALL {
        let moved = pos.offset(dir);
        let back = moved.offset(dir.opposite());
        assert_eq!(back, pos);
    }
}

#[test]
fn direction_from_char() {
    assert_eq!(Direction::from_char('U'), Some(Direction::Up));
    assert_eq!(Direction::from_char('d'), Some(Direction::Down));
    assert_eq!(Direction::from_char('Z'), None);
}

#[test]
fn direction_to_char() {
    assert_eq!(Direction::Up.to_char(), 'U');
    assert_eq!(Direction::Right.to_char(), 'R');
}

#[test]
fn deltas_are_unit_vectors() {
    for dir in Direction::ALL {
        let (dr, dc) = dir.delta();
        assert_eq!(dr.abs() + dc.abs(), 1);
    }
}

// ---- types ----

#[test]
fn generic_label() {
    assert!(Label::generic().is_generic());
    assert_eq!(Label::generic().box_char(), 'X');
    assert_eq!(Label::generic().goal_char(), 'S');
}

#[test]
fn typed_label_roundtrip() {
    for c in 'A'..='Z' {
        if let Some(label) = Label::from_box_char(c) {
            assert_eq!(label.box_char(), c);
            let goal_c = label.goal_char();
            assert_eq!(Label::from_goal_char(goal_c), Some(label));
        }
    }
}

#[test]
fn reserved_chars_rejected() {
    assert!(Label::from_box_char('O').is_none()); // wall
    assert!(Label::from_box_char('R').is_none()); // robot
    assert!(Label::from_box_char('S').is_none()); // goal, not a box
    assert!(Label::from_goal_char('o').is_none());
    assert!(Label::from_goal_char('r').is_none());
    assert!(Label::from_goal_char('x').is_none());
    assert!(Label::from_goal_char('s').is_none());
}

// ---- board ----

#[test]
fn parse_minimal_puzzle() {
    let rows = &["OOOOO", "OR XO", "O  SO", "OOOOO"];
    let board = parse_board(rows).unwrap();
    assert_eq!(board.width, 5);
    assert_eq!(board.height, 4);
    assert_eq!(board.initial_robot, Position::new(1, 1));
    assert_eq!(board.initial_boxes.len(), 1);
    assert_eq!(board.goals.len(), 1);
    assert!(board.initial_boxes[0].label.is_generic());
}

#[test]
fn parse_typed_boxes() {
    let rows = &["OOOOO", "ORAaO", "OB bO", "OOOOO"];
    let board = parse_board(rows).unwrap();
    assert_eq!(board.initial_boxes.len(), 2);
    assert_eq!(board.goals.len(), 2);
    assert_eq!(board.initial_boxes[0].label.box_char(), 'A');
    assert_eq!(board.initial_boxes[1].label.box_char(), 'B');
}

#[test]
fn no_robot_error() {
    let rows = &["OOO", "OXO", "OSO", "OOO"];
    assert_eq!(parse_board(rows), Err(ParseError::NoRobot));
}

#[test]
fn label_mismatch_error() {
    let rows = &["OOOOO", "ORAaO", "OA  O", "OOOOO"];
    match parse_board(rows) {
        Err(ParseError::LabelMismatch { label, boxes, goals }) => {
            assert_eq!(label, 'A');
            assert_eq!(boxes, 2);
            assert_eq!(goals, 1);
        }
        other => panic!("expected LabelMismatch, got {:?}", other),
    }
}

#[test]
fn ragged_rows_padded() {
    let rows = &["OOOOO", "OR X", "O  SO", "OOO"];
    let board = parse_board(rows).unwrap();
    assert_eq!(board.width, 5);
    assert!(board.rows.iter().all(|r| r.len() == 5));
}

#[test]
fn beam_already_solved() {
    let rows = &["OOOOO", "O  *O", "O  RO", "O   O", "OOOOO"];
    let board = parse_board(rows);
    if board.is_err() {
        return;
    }
}

#[test]
fn parse_error_cases() {
    let empty: &[&str] = &[];
    assert_eq!(parse_board(empty), Err(ParseError::Empty));
    assert_eq!(parse_board(&["ORRXS"]), Err(ParseError::MultipleRobots));
    assert_eq!(parse_board(&["OR SO"]), Err(ParseError::NoBoxes));
    // The smallest mismatched label is reported; a goal-only label is named by its box letter.
    assert_eq!(
        parse_board(&["ORXSbO"]),
        Err(ParseError::LabelMismatch { label: 'B', boxes: 0, goals: 1 })
    );
    assert_eq!(
        parse_board(&["ORXXSbO"]),
        Err(ParseError::LabelMismatch { label: 'X', boxes: 2, goals: 1 })
    );
}

#[test]
fn parse_ids_walls_and_floor() {
    let board = parse_board(&["OOOOOO", "ORXAXO", "O#SaSO", "OOOOOO"]).unwrap();
    let ids: Vec<&str> = board.initial_boxes.iter().map(|b| b.id.as_str()).collect();
    assert_eq!(ids, vec!["X:0", "A:0", "X:1"]);
    // '#' is not a board character: it is read as a wall.
    assert!(board.walls.contains(&Position::new(2, 1)));
    assert_eq!(board.floor.len(), 7);
    assert_eq!(board.walls.len() + board.floor.len(), 24);
    assert_eq!(board.goals[1].label, Label(1));
}

// ---- game ----

fn setup() -> (ParsedBoard, GameSnapshot) {
    let rows = &["OOOOO", "O  SO", "O XRO", "O   O", "OOOOO"];
    let board = parse_board(rows).unwrap();
    let snapshot = create_snapshot(&board);
    (board, snapshot)
}

#[test]
fn walk_into_empty() {
    let (board, snap) = setup();
    let result = step_snapshot(&board, &snap, Direction::Down);
    assert!(result.moved);
    assert!(!result.pushed);
    assert_eq!(result.snapshot.robot, Position::new(3, 3));
    assert_eq!(result.snapshot.moves, 1);
    assert_eq!(result.snapshot.pushes, 0);
}

#[test]
fn walk_into_wall() {
    let (board, snap) = setup();
    let result = step_snapshot(&board, &snap, Direction::Right);
    assert!(!result.moved);
    assert_eq!(result.snapshot.robot, snap.robot);
    assert_eq!(result.snapshot.moves, 0);
}

#[test]
fn push_box() {
    let (board, snap) = setup();
    let result = step_snapshot(&board, &snap, Direction::Left);
    assert!(result.moved);
    assert!(result.pushed);
    assert_eq!(result.snapshot.robot, Position::new(2, 2));
    assert_eq!(result.snapshot.moves, 1);
    assert_eq!(result.snapshot.pushes, 1);
    assert_eq!(result.snapshot.boxes[0].position, Position::new(2, 1));
}

#[test]
fn push_box_into_wall_blocked() {
    let (board, snap) = setup();
    let s1 = step_snapshot(&board, &snap, Direction::Left);
    let s2 = step_snapshot(&board, &s1.snapshot, Direction::Left);
    assert!(!s2.moved);
}

#[test]
fn solve_puzzle() {
    let (board, snap) = setup();
    let mut boxes = snap.boxes.clone();
    boxes[0].position = Position::new(1, 3); // on the S goal
    assert!(check_solved(&board, &boxes));
    assert!(!check_solved(&board, &snap.boxes));
}

#[test]
fn push_reports_box_id_and_solves() {
    let board = parse_board(&["OOOOO", "ORXSO", "OOOOO"]).unwrap();
    let snap = create_snapshot(&board);
    assert!(!snap.solved);
    let t = step_snapshot(&board, &snap, Direction::Right);
    assert!(t.pushed);
    assert_eq!(t.pushed_box_id.as_deref(), Some("X:0"));
    assert!(t.snapshot.solved);
    // A box cannot be pushed into another box.
    let board2 = parse_board(&["OOOOOO", "ORXXSS", "OOOOOO"]).unwrap();
    let snap2 = create_snapshot(&board2);
    let t2 = step_snapshot(&board2, &snap2, Direction::Right);
    assert!(!t2.moved);
    assert_eq!(t2.snapshot.moves, 0);
}

// ---- puzzle ----

#[test]
fn fingerprint_deterministic() {
    let rows = vec!["OOOOO".into(), "OR XO".into(), "O  SO".into(), "OOOOO".into()];
    let f1 = puzzle_fingerprint(&rows, 1);
    let f2 = puzzle_fingerprint(&rows, 1);
    assert_eq!(f1, f2);
}

#[test]
fn fingerprint_changes_with_content() {
    let rows1 = vec!["OOOOO".into(), "OR XO".into(), "O  SO".into(), "OOOOO".into()];
    let rows2 = vec!["OOOOO".into(), "O RXO".into(), "O  SO".into(), "OOOOO".into()];
    assert_ne!(puzzle_fingerprint(&rows1, 1), puzzle_fingerprint(&rows2, 1));
}

fn fnv_reference(text: &str) -> String {
    let mut hash: u32 = 2166136261;
    for byte in text.bytes() {
        hash ^= byte as u32;
        hash = hash.wrapping_mul(16777619);
    }
    format!("puzzle-v1:{:08x}", hash)
}

#[test]
fn fingerprint_matches_fnv1a() {
    let rows: Vec<String> = vec!["OOOOO".into(), "OR XO".into(), "O  SO".into(), "OOOOO".into()];
    assert_eq!(
        puzzle_fingerprint(&rows, 12),
        fnv_reference("puzzle-v1:12:OOOOO\nOR XO\nO  SO\nOOOOO")
    );
    let empty: Vec<String> = vec![];
    assert_eq!(puzzle_fingerprint(&empty, 0), fnv_reference("puzzle-v1:0:"));
    let wide: Vec<String> = vec!["é".into()];
    assert_eq!(puzzle_fingerprint(&wide, 3), fnv_reference("puzzle-v1:3:é"));
    assert_eq!(puzzle_fingerprint(&empty, 0).len(), "puzzle-v1:".len() + 8);
}

#[test]
fn parse_puzzle_definition() {
    let puzzle = PuzzleDefinition {
        id: "test-1".into(),
        title: "Test Puzzle".into(),
        difficulty: Difficulty::Tutorial,
        rows: vec!["OOOOO".into(), "OR XO".into(), "O  SO".into(), "OOOOO".into()],
        boxes: 1,
        hint: None,
        collection: None,
    };
    let board = puzzle.parse_board().unwrap();
    assert_eq!(board.initial_boxes.len(), 1);
}

// ---- replay ----

#[test]
fn encode_decode_roundtrip() {
    let dirs = vec![Direction::Up, Direction::Down, Direction::Left, Direction::Right];
    let log = encode_action_log(&dirs);
    assert_eq!(log, "UDLR");
    let decoded = decode_action_log(&log).unwrap();
    assert_eq!(decoded, dirs);
}

#[test]
fn decode_invalid_char() {
    assert_eq!(
        decode_action_log("UDZ"),
        Err(ReplayError::InvalidChar { index: 2, char: 'Z' })
    );
}

#[test]
fn replay_blocked_move() {
    let rows = &["OOO", "ORO", "OOO"];
    let board = parse_board(rows);
    assert!(board.is_err());
}

#[test]
fn replay_valid_sequence() {
    let rows = &["OOOOO", "O  SO", "O XRO", "O   O", "OOOOO"];
    let board = parse_board(rows).unwrap();
    let snapshot = replay_action_log(&board, "D").unwrap();
    assert_eq!(snapshot.moves, 1);
    assert_eq!(snapshot.pushes, 0);
}

#[test]
fn replay_reports_first_blocked_step_and_lowercase() {
    let board = parse_board(&["OOOOO", "O  SO", "O XRO", "O   O", "OOOOO"]).unwrap();
    assert_eq!(replay_action_log(&board, "dR").err(), Some(ReplayError::BlockedAt { index: 1 }));
    assert_eq!(
        replay_action_log(&board, "DQ").err(),
        Some(ReplayError::InvalidChar { index: 1, char: 'Q' })
    );
    let s = replay_action_log(&board, "dlu").unwrap();
    assert_eq!(s.pushes, 1);
    assert_eq!(s.boxes[0].position, Position::new(1, 2));
    assert_eq!(encode_action_log(&decode_action_log("dlu").unwrap()), "DLU");
}
