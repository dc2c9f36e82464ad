use sokomind::board::parse_board;
use sokomind::compiled_board::CompiledBoard;
use sokomind::pattern_database::{build_pattern_table, PatternDatabase};

const OPEN_ROOM: [&str; 7] = ["OOOOOOO", "OSS   O", "O     O", "O XX  O", "O  R  O", "O     O", "OOOOOOO"];

fn compile(rows: &[&str]) -> CompiledBoard {
    let board = parse_board(rows).unwrap();
    CompiledBoard::from_parsed(&board)
}

fn initial_boxes(cb: &CompiledBoard) -> Vec<(u16, u8)> {
    cb.initial_box_cells.iter().map(|&(c, l)| (c, l.0)).collect()
}

#[test]
fn single_goal_no_patterns() {
    let rows = &["OOOOO", "O  SO", "O XRO", "O   O", "OOOOO"];
    let board = parse_board(rows).unwrap();
    let cb = CompiledBoard::from_parsed(&board);
    let pdb = PatternDatabase::build(&cb);
    assert_eq!(pdb.pattern_count(), 0);
}

#[test]
fn two_goals_builds_pattern() {
    let rows = &[
        "OOOOOOO", "OSS   O", "O     O", "O XX  O", "O  R  O", "O     O", "OOOOOOO",
    ];
    let board = parse_board(rows).unwrap();
    let cb = CompiledBoard::from_parsed(&board);
    let pdb = PatternDatabase::build(&cb);
    assert!(pdb.pattern_count() >= 1);
    assert!(pdb.total_entries() > 1);
}

#[test]
fn evaluate_at_goal_is_zero() {
    let rows = &[
        "OOOOOOO", "OSS   O", "O     O", "O XX  O", "O  R  O", "O     O", "OOOOOOO",
    ];
    let board = parse_board(rows).unwrap();
    let cb = CompiledBoard::from_parsed(&board);
    let pdb = PatternDatabase::build(&cb);

    let box_cells: Vec<(u16, u8)> = cb.goal_cells.iter().map(|&(c, l)| (c, l.0)).collect();
    let h = pdb.evaluate(&cb, &box_cells);
    assert_eq!(h, 0);
}

#[test]
fn evaluate_off_goal_positive() {
    let rows = &[
        "OOOOOOO", "OSS   O", "O     O", "O XX  O", "O  R  O", "O     O", "OOOOOOO",
    ];
    let board = parse_board(rows).unwrap();
    let cb = CompiledBoard::from_parsed(&board);
    let pdb = PatternDatabase::build(&cb);

    let box_cells: Vec<(u16, u8)> = cb
        .initial_box_cells
        .iter()
        .map(|&(c, l)| (c, l.0))
        .collect();
    let h = pdb.evaluate(&cb, &box_cells);
    assert!(h > 0, "boxes off-goal should have positive heuristic");
}

#[test]
fn admissibility_check() {
    let rows = &[
        "OOOOOOO", "OSS   O", "O     O", "O XX  O", "O  R  O", "O     O", "OOOOOOO",
    ];
    let board = parse_board(rows).unwrap();
    let cb = CompiledBoard::from_parsed(&board);
    let pdb = PatternDatabase::build(&cb);

    let box_cells: Vec<(u16, u8)> = cb
        .initial_box_cells
        .iter()
        .map(|&(c, l)| (c, l.0))
        .collect();
    let h = pdb.evaluate(&cb, &box_cells);
    // PDB should never exceed the actual optimal cost. On this
    // 2-box puzzle, optimal is ~4 pushes.
    assert!(
        h <= 10,
        "PDB should give a reasonable lower bound, got {}",
        h
    );
}

#[test]
fn typed_labels_separate_patterns() {
    let rows = &[
        "OOOOOOO", "O a   O", "O AR  O", "O B   O", "O   b O", "OOOOOOO",
    ];
    let board = parse_board(rows).unwrap();
    let cb = CompiledBoard::from_parsed(&board);
    let pdb = PatternDatabase::build(&cb);
    // Each label has only 1 goal → no patterns (need ≥2).
    assert_eq!(pdb.pattern_count(), 0);
}

#[test]
fn pdb_open_room_has_one_pattern() {
    let cb = compile(&OPEN_ROOM);
    let pdb = PatternDatabase::build(&cb);
    assert_eq!(pdb.pattern_count(), 1);
}

#[test]
fn pdb_open_room_value_is_least_pulls() {
    // Each box needs three pulls from its goal: (1,1)/(1,2) to (3,2)/(3,3).
    let cb = compile(&OPEN_ROOM);
    let pdb = PatternDatabase::build(&cb);
    let h = pdb.evaluate(&cb, &initial_boxes(&cb));
    assert_eq!(h, 6);
}

#[test]
fn pdb_value_ignores_extra_labels() {
    // Boxes of a label no pattern speaks of add nothing.
    let cb = compile(&OPEN_ROOM);
    let pdb = PatternDatabase::build(&cb);
    let mut boxes: Vec<(u16, u8)> = cb.goal_cells.iter().map(|&(c, l)| (c, l.0)).collect();
    boxes.push((cb.initial_box_cells[0].0, 7));
    assert_eq!(pdb.evaluate(&cb, &boxes), 0);
}

#[test]
fn pdb_too_few_boxes_counts_zero() {
    // One box of the label is fewer than the pattern's two goals.
    let cb = compile(&OPEN_ROOM);
    let pdb = PatternDatabase::build(&cb);
    let boxes: Vec<(u16, u8)> = vec![(cb.initial_box_cells[0].0, cb.initial_box_cells[0].1 .0)];
    assert_eq!(pdb.evaluate(&cb, &boxes), 0);
}

#[test]
fn pdb_six_goals_split_into_two_chunks() {
    let rows = &[
        "OOOOOOOOO",
        "OSSSSSS O",
        "O       O",
        "OXXXXXX O",
        "O R     O",
        "OOOOOOOOO",
    ];
    let cb = compile(rows);
    let pdb = PatternDatabase::build(&cb);
    assert_eq!(pdb.pattern_count(), 2);
}

#[test]
fn pattern_table_for_two_goals() {
    let cb = compile(&OPEN_ROOM);
    let table = build_pattern_table(&cb, &[0, 1]).unwrap();
    // The goals themselves are at distance zero.
    let mut start: Vec<u16> = cb.goal_cells.iter().map(|&(c, _)| c).collect();
    start.sort();
    assert_eq!(table.get(&start), Some(&0));
    assert!(table.len() > 1);
}
