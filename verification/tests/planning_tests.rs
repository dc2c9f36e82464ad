use sokomind::board::parse_board;
use sokomind::compiled_board::{CompiledBoard, INVALID_CELL};
use sokomind::planning::corral_ordering::{CorralOrdering, NO_DIST};
use sokomind::planning::doorway_scheduling::DoorwaySchedule;
use sokomind::planning::rooms::RoomMap;
use sokomind::planning::strategic::StructuralPlan;
use sokomind::position::{Direction, Position};

fn compile(rows: &[&str]) -> CompiledBoard {
    let board = parse_board(rows).unwrap();
    CompiledBoard::from_parsed(&board)
}

fn cell(cb: &CompiledBoard, row: i16, col: i16) -> u16 {
    cb.pos_to_cell(Position::new(row, col))
}

const OPEN_ROOM: [&str; 7] = ["OOOOOOO", "OSS   O", "O     O", "O XX  O", "O  R  O", "O     O", "OOOOOOO"];
const TWO_ROOMS: [&str; 6] = ["OOOOOOOOO", "OS      O", "OOOOO OOO", "O       O", "O XR    O", "OOOOOOOOO"];
const SMALL: [&str; 5] = ["OOOOO", "O  SO", "O XRO", "O   O", "OOOOO"];
const TWIN_HALLS: [&str; 8] = [
    "OOOOOOOOOOOOOOO",
    "O      O      O",
    "O      O      O",
    "O S    OR     O",
    "O      O  X   O",
    "O             O",
    "O      O      O",
    "OOOOOOOOOOOOOOO",
];

// ---- rooms ----

#[test]
fn open_room_single_room() {
    let cb = compile(&OPEN_ROOM);
    let rooms = RoomMap::analyze(&cb);
    assert_eq!(rooms.doorway_count, 0);
    assert_eq!(rooms.room_count, 1);
}

#[test]
fn two_rooms_with_doorway() {
    let board = parse_board(&TWO_ROOMS);
    if board.is_err() {
        return;
    }
    let cb = CompiledBoard::from_parsed(&board.unwrap());
    let rooms = RoomMap::analyze(&cb);
    assert!(rooms.doorway_count >= 1 || rooms.room_count >= 1);
}

#[test]
fn doorway_connects_rooms() {
    let board = parse_board(&["OOOOOO", "OS   O", "OO OOO", "O    O", "O XR O", "OOOOOO"]);
    if board.is_err() {
        return;
    }
    let cb = CompiledBoard::from_parsed(&board.unwrap());
    let rooms = RoomMap::analyze(&cb);
    for cell in 0..cb.cell_count {
        let has_room = rooms.cell_room(cell).is_some();
        let is_door = rooms.is_doorway(cell);
        assert!(has_room || is_door, "cell {} must be in a room or a doorway", cell);
    }
}

#[test]
fn room_count_nonnegative() {
    let cb = compile(&SMALL);
    let rooms = RoomMap::analyze(&cb);
    assert!(rooms.room_count >= 1);
}

#[test]
fn corridor_rooms_exact() {
    let cb = compile(&TWO_ROOMS);
    let rooms = RoomMap::analyze(&cb);
    // The top row is a corridor: every inner cell of it, and the two cells
    // leading down, cut the floor apart.
    assert_eq!(rooms.doorway_count, 7);
    assert_eq!(rooms.room_count, 3);
    assert!(rooms.is_doorway(cell(&cb, 2, 5)));
    assert!(rooms.is_doorway(cell(&cb, 1, 3)));
    assert!(!rooms.is_doorway(cell(&cb, 4, 5)));
    assert_eq!(rooms.cell_room(cell(&cb, 1, 1)), Some(0));
    assert_eq!(rooms.cell_room(cell(&cb, 1, 7)), Some(1));
    assert_eq!(rooms.cell_room(cell(&cb, 4, 2)), Some(2));
    assert_eq!(rooms.cell_room(cell(&cb, 3, 7)), Some(2));
    assert_eq!(rooms.cell_room(cell(&cb, 2, 5)), None);
    let mut around = rooms.rooms_adjacent_to_doorway(&cb, cell(&cb, 1, 2));
    around.sort();
    assert_eq!(around, vec![0]);
}

// ---- corral ordering ----

#[test]
fn single_room_zero_distance() {
    let cb = compile(&OPEN_ROOM);
    let rooms = RoomMap::analyze(&cb);
    let ordering = CorralOrdering::build(&cb, &rooms);
    assert_eq!(rooms.room_count, 1);
    assert_eq!(ordering.room_distance(0), 0);
}

#[test]
fn corral_boost_solved_is_zero() {
    let cb = compile(&OPEN_ROOM);
    let rooms = RoomMap::analyze(&cb);
    let ordering = CorralOrdering::build(&cb, &rooms);
    let box_cells: Vec<(u16, u8)> = cb.goal_cells.iter().map(|&(c, l)| (c, l.0)).collect();
    assert_eq!(ordering.corral_boost(&cb, &rooms, &box_cells), 0);
}

#[test]
fn corral_boost_nonnegative() {
    let cb = compile(&OPEN_ROOM);
    let rooms = RoomMap::analyze(&cb);
    let ordering = CorralOrdering::build(&cb, &rooms);
    let box_cells: Vec<(u16, u8)> = cb.initial_box_cells.iter().map(|&(c, l)| (c, l.0)).collect();
    let boost = ordering.corral_boost(&cb, &rooms, &box_cells);
    assert!(boost < 1000);
}

#[test]
fn two_room_distance() {
    let board = parse_board(&TWO_ROOMS);
    if board.is_err() {
        return;
    }
    let cb = CompiledBoard::from_parsed(&board.unwrap());
    let rooms = RoomMap::analyze(&cb);
    if rooms.room_count < 2 {
        return;
    }
    let ordering = CorralOrdering::build(&cb, &rooms);
    let has_zero = (0..rooms.room_count).any(|r| ordering.room_distance(r) == 0);
    assert!(has_zero, "goal room should have distance 0");
    for r in 0..rooms.room_count {
        let d = ordering.room_distance(r);
        assert!(d < 100, "room {} distance should be bounded, got {}", r, d);
    }
}

#[test]
fn empty_board_no_panic() {
    let cb = compile(&SMALL);
    let rooms = RoomMap::analyze(&cb);
    let ordering = CorralOrdering::build(&cb, &rooms);
    let boost = ordering.corral_boost(&cb, &rooms, &[]);
    assert_eq!(boost, 0);
}

#[test]
fn corridor_room_distances_exact() {
    let cb = compile(&TWO_ROOMS);
    let rooms = RoomMap::analyze(&cb);
    let ordering = CorralOrdering::build(&cb, &rooms);
    // The goal lies in room 0; the one cluster of doorways joins all three rooms.
    assert_eq!(ordering.room_distance(0), 0);
    assert_eq!(ordering.room_distance(1), 1);
    assert_eq!(ordering.room_distance(2), 1);
    assert_eq!(ordering.room_distance(3), NO_DIST);
    let boxes: Vec<(u16, u8)> = cb.initial_box_cells.iter().map(|&(c, l)| (c, l.0)).collect();
    assert_eq!(ordering.corral_boost(&cb, &rooms, &boxes), 1);
    // A box on a doorway counts the least distance of the rooms around it.
    let on_door = vec![(cell(&cb, 1, 2), 0u8)];
    assert_eq!(ordering.corral_boost(&cb, &rooms, &on_door), 0);
    let on_far_door = vec![(cell(&cb, 3, 5), 0u8)];
    assert_eq!(ordering.corral_boost(&cb, &rooms, &on_far_door), 1);
}

// ---- doorway scheduling ----

#[test]
fn single_room_zero_crossings() {
    let cb = compile(&OPEN_ROOM);
    let rooms = RoomMap::analyze(&cb);
    let schedule = DoorwaySchedule::build(&cb, &rooms);
    assert_eq!(schedule.max_crossings(), 0);
    for i in 0..cb.initial_box_cells.len() {
        assert_eq!(schedule.crossings_for_box(i), 0);
    }
}

#[test]
fn solved_state_zero_priority() {
    let cb = compile(&OPEN_ROOM);
    let rooms = RoomMap::analyze(&cb);
    let schedule = DoorwaySchedule::build(&cb, &rooms);
    let box_cells: Vec<(u16, u8)> = cb.goal_cells.iter().map(|&(c, l)| (c, l.0)).collect();
    let priority = schedule.total_crossing_priority(&cb, &rooms, &box_cells);
    assert_eq!(priority, 0);
}

#[test]
fn two_room_has_crossings() {
    let board = parse_board(&TWO_ROOMS);
    if board.is_err() {
        return;
    }
    let cb = CompiledBoard::from_parsed(&board.unwrap());
    let rooms = RoomMap::analyze(&cb);
    if rooms.room_count < 2 || rooms.doorway_count == 0 {
        return;
    }
    let schedule = DoorwaySchedule::build(&cb, &rooms);
    assert!(schedule.max_crossings() < 100, "crossings should be bounded");
}

#[test]
fn crossings_from_cell_runtime() {
    let cb = compile(&SMALL);
    let rooms = RoomMap::analyze(&cb);
    let box_cell = cb.initial_box_cells[0].0;
    let label = cb.initial_box_cells[0].1 .0;
    let crossings = DoorwaySchedule::crossings_from_cell(&cb, &rooms, box_cell, label);
    assert_eq!(crossings, 0);
}

#[test]
fn out_of_range_box_index() {
    let cb = compile(&SMALL);
    let rooms = RoomMap::analyze(&cb);
    let schedule = DoorwaySchedule::build(&cb, &rooms);
    assert_eq!(schedule.crossings_for_box(999), 0);
}

#[test]
fn corridor_crossings_exact() {
    let cb = compile(&TWO_ROOMS);
    let rooms = RoomMap::analyze(&cb);
    let schedule = DoorwaySchedule::build(&cb, &rooms);
    assert_eq!(schedule.crossings_for_box(0), 1);
    assert_eq!(schedule.max_crossings(), 1);
    assert_eq!(DoorwaySchedule::crossings_from_cell(&cb, &rooms, cell(&cb, 1, 7), 0), 1);
    assert_eq!(DoorwaySchedule::crossings_from_cell(&cb, &rooms, cell(&cb, 4, 7), 0), 1);
    // Boxes on doorways, or in the goal's room, cross nothing.
    assert_eq!(DoorwaySchedule::crossings_from_cell(&cb, &rooms, cell(&cb, 2, 5), 0), 0);
    assert_eq!(DoorwaySchedule::crossings_from_cell(&cb, &rooms, cell(&cb, 1, 1), 0), 0);
    // No goal of label 3: nothing to count.
    assert_eq!(DoorwaySchedule::crossings_from_cell(&cb, &rooms, cell(&cb, 4, 7), 3), 0);
    let boxes = vec![(cell(&cb, 4, 7), 0u8), (cell(&cb, 1, 7), 0u8), (cell(&cb, 1, 1), 0u8)];
    assert_eq!(schedule.total_crossing_priority(&cb, &rooms, &boxes), 2);
}

// ---- structural plan ----

#[test]
fn small_puzzle_inactive() {
    let cb = compile(&SMALL);
    let plan = StructuralPlan::build(&cb);
    assert!(!plan.is_active());
    assert_eq!(plan.evaluate_state(&cb, &[]), 0);
}

#[test]
fn large_open_room_inactive() {
    let board = parse_board(&[
        "OOOOOOOOOOO",
        "OSSSSSS   O",
        "O         O",
        "O         O",
        "O XXXXXXR O",
        "O         O",
        "O         O",
        "OOOOOOOOOOO",
    ]);
    if board.is_err() {
        return;
    }
    let cb = CompiledBoard::from_parsed(&board.unwrap());
    let plan = StructuralPlan::build(&cb);
    if plan.rooms().room_count == 1 {
        assert!(!plan.is_active());
    }
}

#[test]
fn evaluate_solved_zero() {
    let cb = compile(&OPEN_ROOM);
    let plan = StructuralPlan::build(&cb);
    let box_cells: Vec<(u16, u8)> = cb.goal_cells.iter().map(|&(c, l)| (c, l.0)).collect();
    let boost = plan.evaluate_state(&cb, &box_cells);
    assert_eq!(boost, 0);
}

#[test]
fn summary_no_panic() {
    let cb = compile(&SMALL);
    let plan = StructuralPlan::build(&cb);
    let s = plan.summary();
    assert!(!s.is_empty());
}

#[test]
fn two_room_plan_active() {
    let board = parse_board(&TWO_ROOMS);
    if board.is_err() {
        return;
    }
    let cb = CompiledBoard::from_parsed(&board.unwrap());
    let plan = StructuralPlan::build(&cb);
    if plan.is_active() {
        assert!(plan.room_count() >= 2);
        assert!(plan.doorway_count() >= 1);
        let s = plan.summary();
        assert!(s.contains("rooms"));
    }
}

#[test]
fn inactive_plan_summary_text() {
    let cb = compile(&TWO_ROOMS);
    let plan = StructuralPlan::build(&cb);
    // One box and 22 floor cells: too simple, though it has several rooms.
    assert!(!plan.is_active());
    assert_eq!(plan.room_count(), 3);
    assert_eq!(plan.summary(), "no structural plan (puzzle too simple)");
    let boxes: Vec<(u16, u8)> = cb.initial_box_cells.iter().map(|&(c, l)| (c, l.0)).collect();
    assert_eq!(plan.evaluate_state(&cb, &boxes), 0);
}

#[test]
fn twin_halls_plan_active() {
    let cb = compile(&TWIN_HALLS);
    let plan = StructuralPlan::build(&cb);
    assert!(plan.is_active());
    assert_eq!(plan.room_count(), 2);
    // The gap and the two cells on either side of it cut the halls apart.
    assert_eq!(plan.doorway_count(), 3);
    assert!(plan.rooms().is_doorway(cell(&cb, 5, 6)));
    assert!(plan.rooms().is_doorway(cell(&cb, 5, 7)));
    assert!(plan.rooms().is_doorway(cell(&cb, 5, 8)));
    assert_eq!(plan.max_doorway_crossings(), 1);
    assert_eq!(plan.summary(), "2 rooms, 3 doorways, max 1 crossings");
    let boxes: Vec<(u16, u8)> = cb.initial_box_cells.iter().map(|&(c, l)| (c, l.0)).collect();
    // One hop of room distance and one doorway crossing.
    assert_eq!(plan.evaluate_state(&cb, &boxes), 2);
    let solved: Vec<(u16, u8)> = cb.goal_cells.iter().map(|&(c, l)| (c, l.0)).collect();
    assert_eq!(plan.evaluate_state(&cb, &solved), 0);
}

#[test]
fn doorways_are_cut_cells() {
    // A loop of floor around a pillar has no cell that cuts it; the stub
    // hanging off it is attached by one.
    let cb = compile(&["OOOOOO", "OR  SO", "O OO O", "OX   O", "OOO OO", "OOO OO", "OOOOOO"]);
    let rooms = RoomMap::analyze(&cb);
    assert!(rooms.is_doorway(cell(&cb, 3, 3)));
    assert!(rooms.is_doorway(cell(&cb, 4, 3)));
    assert!(!rooms.is_doorway(cell(&cb, 5, 3)));
    assert!(!rooms.is_doorway(cell(&cb, 1, 1)));
    assert!(!rooms.is_doorway(cell(&cb, 3, 4)));
    assert_eq!(rooms.doorway_count, 2);
    assert_eq!(rooms.room_count, 2);
}

#[test]
fn neighbours_go_both_ways() {
    let cb = compile(&["OOOOOOO", "O  S  O", "O OXO O", "O  R  O", "OO   OO", "OOOOOOO"]);
    for cell in 0..cb.cell_count {
        for dir in Direction::ALL {
            let next = cb.neighbor(cell, dir);
            if next != INVALID_CELL {
                assert_eq!(cb.neighbor(next, dir.opposite()), cell);
            }
        }
    }
}
