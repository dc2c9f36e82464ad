use vstd::prelude::*;

use crate::compiled_board::distinct_floor;
use crate::position::Position;
use vstd::utf8::encode_utf8;
use crate::text::{chars_of, decimal, push_char, push_decimal, string_of};
use crate::types::{spec_from_box_char, spec_from_goal_char, BoxEntity, BoxView, Goal, Label};

verus! {

broadcast use vstd::std_specs::vec::group_vec_axioms;

/// Static puzzle geometry parsed from row strings.
#[derive(Clone, Debug, PartialEq, Eq)]
pub struct ParsedBoard {
    pub width: u16,
    pub height: u16,
    pub rows: Vec<String>,
    pub walls: Vec<Position>,
    pub floor: Vec<Position>,
    pub goals: Vec<Goal>,
    pub initial_robot: Position,
    pub initial_boxes: Vec<BoxEntity>,
}

/// Why a board description was rejected.
#[derive(Debug, PartialEq, Eq, Structural)]
pub enum ParseError {
    Empty,
    NoRobot,
    MultipleRobots,
    NoBoxes,
    LabelMismatch { label: char, boxes: usize, goals: usize },
    RobotOnWall,
    BoxOnWall,
    GoalOnWall,
    DuplicatePosition(Position),
}

/// What a board character stands for.
pub enum CellKind {
    Wall,
    Floor,
    Robot,
    BoxCell(Label),
    GoalCell(Label),
}

/// `O` is a wall, a space is floor, `R` the robot, `X` and typed upper-case
/// letters are boxes, `S` and typed lower-case letters are goals; every other
/// character is a wall.
pub open spec fn cell_kind(c: char) -> CellKind {
    if c == 'O' {
        CellKind::Wall
    } else if c == ' ' {
        CellKind::Floor
    } else if c == 'R' {
        CellKind::Robot
    } else if spec_from_box_char(c) is Some {
        CellKind::BoxCell(spec_from_box_char(c).unwrap())
    } else if spec_from_goal_char(c) is Some {
        CellKind::GoalCell(spec_from_goal_char(c).unwrap())
    } else {
        CellKind::Wall
    }
}

/// The length in bytes (UTF-8) of a row.
pub open spec fn row_bytes(row: Seq<char>) -> nat {
    encode_utf8(row).len()
}

/// The characters of each row.
pub open spec fn row_chars(rows: Seq<&str>) -> Seq<Seq<char>> {
    rows.map_values(|r: &str| r@)
}

/// The greatest byte length among the rows: the board width.
pub open spec fn max_row_bytes(rows: Seq<Seq<char>>) -> nat
    decreases rows.len(),
{
    if rows.len() == 0 {
        0
    } else {
        let m = max_row_bytes(rows.drop_last());
        let l = row_bytes(rows.last());
        if l > m {
            l
        } else {
            m
        }
    }
}

/// A row padded on the right with walls up to `width` bytes.
pub open spec fn padded_row(row: Seq<char>, width: nat) -> Seq<char> {
    row + Seq::new((width - row_bytes(row)) as nat, |i: int| 'O')
}

/// The padded rows of the board, as characters.
pub open spec fn padded_grid(rows: Seq<Seq<char>>) -> Seq<Seq<char>> {
    Seq::new(rows.len(), |i: int| padded_row(rows[i], max_row_bytes(rows)))
}

/// The cells of row `r`, each with its position and character.
pub open spec fn row_cells(r: int, row: Seq<char>) -> Seq<(Position, char)> {
    Seq::new(row.len(), |c: int| (Position { row: r as i16, col: c as i16 }, row[c]))
}

/// All cells of a grid in row-major order.
pub open spec fn grid_cells(grid: Seq<Seq<char>>) -> Seq<(Position, char)>
    decreases grid.len(),
{
    if grid.len() == 0 {
        Seq::empty()
    } else {
        grid_cells(grid.drop_last()) + row_cells(grid.len() - 1, grid.last())
    }
}

/// The cells of the parsed board in row-major order.
pub open spec fn board_cells(rows: Seq<Seq<char>>) -> Seq<(Position, char)> {
    grid_cells(padded_grid(rows))
}

pub open spec fn is_wall_char(c: char) -> bool {
    cell_kind(c) is Wall
}

/// Positions of the wall cells, in row-major order.
pub open spec fn wall_positions(cells: Seq<(Position, char)>) -> Seq<Position>
    decreases cells.len(),
{
    if cells.len() == 0 {
        Seq::empty()
    } else if is_wall_char(cells.last().1) {
        wall_positions(cells.drop_last()).push(cells.last().0)
    } else {
        wall_positions(cells.drop_last())
    }
}

/// Positions of every non-wall cell (floor, robot, boxes, goals), in row-major order.
pub open spec fn floor_positions(cells: Seq<(Position, char)>) -> Seq<Position>
    decreases cells.len(),
{
    if cells.len() == 0 {
        Seq::empty()
    } else if !is_wall_char(cells.last().1) {
        floor_positions(cells.drop_last()).push(cells.last().0)
    } else {
        floor_positions(cells.drop_last())
    }
}

/// The goals in row-major order.
pub open spec fn goal_list(cells: Seq<(Position, char)>) -> Seq<Goal>
    decreases cells.len(),
{
    if cells.len() == 0 {
        Seq::empty()
    } else {
        match cell_kind(cells.last().1) {
            CellKind::GoalCell(l) => goal_list(cells.drop_last()).push(
                Goal { label: l, position: cells.last().0 },
            ),
            _ => goal_list(cells.drop_last()),
        }
    }
}

/// How many boxes with label `l` the cells hold.
pub open spec fn box_count(cells: Seq<(Position, char)>, l: u8) -> nat
    decreases cells.len(),
{
    if cells.len() == 0 {
        0
    } else {
        box_count(cells.drop_last(), l) + match cell_kind(cells.last().1) {
            CellKind::BoxCell(bl) => if bl.0 == l {
                1nat
            } else {
                0nat
            },
            _ => 0nat,
        }
    }
}

/// How many goals with label `l` the cells hold.
pub open spec fn goal_count(cells: Seq<(Position, char)>, l: u8) -> nat
    decreases cells.len(),
{
    if cells.len() == 0 {
        0
    } else {
        goal_count(cells.drop_last(), l) + match cell_kind(cells.last().1) {
            CellKind::GoalCell(gl) => if gl.0 == l {
                1nat
            } else {
                0nat
            },
            _ => 0nat,
        }
    }
}

/// The identifier of a box: its letter, a colon, and the number of earlier
/// boxes of the same label.
pub open spec fn box_id(c: char, index: nat) -> Seq<char> {
    seq![c, ':'] + decimal(index)
}

/// The boxes in row-major order, with their identifiers.
pub open spec fn box_list(cells: Seq<(Position, char)>) -> Seq<BoxView>
    decreases cells.len(),
{
    if cells.len() == 0 {
        Seq::empty()
    } else {
        let prev = cells.drop_last();
        match cell_kind(cells.last().1) {
            CellKind::BoxCell(l) => box_list(prev).push(
                BoxView {
                    id: box_id(cells.last().1, box_count(prev, l.0)),
                    label: l,
                    position: cells.last().0,
                },
            ),
            _ => box_list(prev),
        }
    }
}

/// How many robot cells there are.
pub open spec fn robot_count(cells: Seq<(Position, char)>) -> nat
    decreases cells.len(),
{
    if cells.len() == 0 {
        0
    } else {
        robot_count(cells.drop_last()) + if cells.last().1 == 'R' {
            1nat
        } else {
            0nat
        }
    }
}

/// The position of the first robot cell, if any.
pub open spec fn first_robot(cells: Seq<(Position, char)>) -> Option<Position>
    decreases cells.len(),
{
    if cells.len() == 0 {
        None
    } else if first_robot(cells.drop_last()) is Some {
        first_robot(cells.drop_last())
    } else if cells.last().1 == 'R' {
        Some(cells.last().0)
    } else {
        None
    }
}

/// The letter that names label `l` in a label mismatch.
pub open spec fn label_letter(l: u8) -> char {
    if l == 0 {
        'X'
    } else {
        (65 + l - 1) as char
    }
}

/// The number of labels a board character can carry (generic and `A`..`Z`).
pub open spec fn label_span() -> nat {
    27
}

/// The smallest label at or above `from` whose boxes and goals differ in number.
pub open spec fn first_mismatch(cells: Seq<(Position, char)>, from: nat) -> Option<u8>
    decreases label_span() - from,
{
    if from >= label_span() {
        None
    } else if box_count(cells, from as u8) != goal_count(cells, from as u8) {
        Some(from as u8)
    } else {
        first_mismatch(cells, from + 1)
    }
}

/// The error `parse_board` reports for these rows, or `None` when they are accepted.
pub open spec fn parse_outcome(rows: Seq<Seq<char>>) -> Option<ParseError> {
    let cells = board_cells(rows);
    if rows.len() == 0 {
        Some(ParseError::Empty)
    } else if robot_count(cells) >= 2 {
        Some(ParseError::MultipleRobots)
    } else if robot_count(cells) == 0 {
        Some(ParseError::NoRobot)
    } else if box_list(cells).len() == 0 {
        Some(ParseError::NoBoxes)
    } else {
        match first_mismatch(cells, 0) {
            Some(l) => Some(
                ParseError::LabelMismatch {
                    label: label_letter(l),
                    boxes: box_count(cells, l) as usize,
                    goals: goal_count(cells, l) as usize,
                },
            ),
            None => None,
        }
    }
}

/// The boxes of a board, by their views.
pub open spec fn boxes_view(boxes: Seq<BoxEntity>) -> Seq<BoxView> {
    boxes.map_values(|b: BoxEntity| b@)
}

/// `board` is the board these (accepted) rows describe.
pub open spec fn describes(board: ParsedBoard, rows: Seq<Seq<char>>) -> bool {
    let cells = board_cells(rows);
    &&& board.width as nat == max_row_bytes(rows)
    &&& board.height == rows.len() as u16
    &&& board.rows@.len() == rows.len()
    &&& forall|i: int| 0 <= i < rows.len() ==> #[trigger] board.rows@[i]@ == padded_grid(rows)[i]
    &&& board.walls@ == wall_positions(cells)
    &&& board.floor@ == floor_positions(cells)
    &&& board.goals@ == goal_list(cells)
    &&& first_robot(cells) == Some(board.initial_robot)
    &&& boxes_view(board.initial_boxes@) == box_list(cells)
}

/// Every row fits the `u16` width of a board.
pub open spec fn rows_fit(rows: Seq<Seq<char>>) -> bool {
    forall|i: int| 0 <= i < rows.len() ==> row_bytes(#[trigger] rows[i]) <= u16::MAX
}

proof fn lemma_max_row_bytes_bound(rows: Seq<Seq<char>>)
    requires
        rows_fit(rows),
    ensures
        max_row_bytes(rows) <= u16::MAX,
        forall|i: int| 0 <= i < rows.len() ==> row_bytes(#[trigger] rows[i]) <= max_row_bytes(rows),
    decreases rows.len(),
{
    if rows.len() > 0 {
        lemma_max_row_bytes_bound(rows.drop_last());
        assert forall|i: int| 0 <= i < rows.len() implies row_bytes(#[trigger] rows[i])
            <= max_row_bytes(rows) by {
            if i < rows.len() - 1 {
                assert(rows[i] == rows.drop_last()[i]);
            }
        }
    }
}

/// Every collector takes one more step when one cell is added.
proof fn lemma_cells_push(p: Seq<(Position, char)>, x: (Position, char))
    ensures
        wall_positions(p.push(x)) == if is_wall_char(x.1) {
            wall_positions(p).push(x.0)
        } else {
            wall_positions(p)
        },
        floor_positions(p.push(x)) == if !is_wall_char(x.1) {
            floor_positions(p).push(x.0)
        } else {
            floor_positions(p)
        },
        goal_list(p.push(x)) == match cell_kind(x.1) {
            CellKind::GoalCell(l) => goal_list(p).push(Goal { label: l, position: x.0 }),
            _ => goal_list(p),
        },
        box_list(p.push(x)) == match cell_kind(x.1) {
            CellKind::BoxCell(l) => box_list(p).push(
                BoxView { id: box_id(x.1, box_count(p, l.0)), label: l, position: x.0 },
            ),
            _ => box_list(p),
        },
        forall|l: u8| #[trigger]
            box_count(p.push(x), l) == box_count(p, l) + match cell_kind(x.1) {
                CellKind::BoxCell(bl) => if bl.0 == l {
                    1nat
                } else {
                    0nat
                },
                _ => 0nat,
            },
        forall|l: u8| #[trigger]
            goal_count(p.push(x), l) == goal_count(p, l) + match cell_kind(x.1) {
                CellKind::GoalCell(gl) => if gl.0 == l {
                    1nat
                } else {
                    0nat
                },
                _ => 0nat,
            },
        robot_count(p.push(x)) == robot_count(p) + if x.1 == 'R' {
            1nat
        } else {
            0nat
        },
        first_robot(p.push(x)) == if first_robot(p) is Some {
            first_robot(p)
        } else if x.1 == 'R' {
            Some(x.0)
        } else {
            None
        },
{
    assert(p.push(x).drop_last() =~= p);
}

proof fn lemma_first_robot(p: Seq<(Position, char)>)
    ensures
        (first_robot(p) is None) == (robot_count(p) == 0),
    decreases p.len(),
{
    if p.len() > 0 {
        lemma_first_robot(p.drop_last());
    }
}

proof fn lemma_box_count_le(p: Seq<(Position, char)>, l: u8)
    ensures
        box_count(p, l) <= box_list(p).len(),
        goal_count(p, l) <= goal_list(p).len(),
    decreases p.len(),
{
    if p.len() > 0 {
        lemma_box_count_le(p.drop_last(), l);
    }
}

/// Labels that come from board characters never exceed 26.
proof fn lemma_labels_small(c: char)
    ensures
        spec_from_box_char(c) is Some ==> spec_from_box_char(c).unwrap().0 <= 26,
        spec_from_goal_char(c) is Some ==> spec_from_goal_char(c).unwrap().0 <= 26,
{
}

/// The row-major cells of the first `r` rows followed by the first `c` cells of row `r`.
pub open spec fn scanned(grid: Seq<Seq<char>>, r: int, c: int) -> Seq<(Position, char)> {
    grid_cells(grid.take(r)) + row_cells(r, grid[r]).take(c)
}

/// Reads the rows of a board. Rows shorter than the widest row (in bytes) are
/// padded on the right with walls.
pub fn parse_board(rows: &[&str]) -> (res: Result<ParsedBoard, ParseError>)
    requires
        rows_fit(row_chars(rows@)),
    ensures
        match res {
            Ok(board) => parse_outcome(row_chars(rows@)) is None && describes(board, row_chars(rows@)),
            Err(e) => parse_outcome(row_chars(rows@)) == Some(e),
        },
{
    if rows.len() == 0 {
        return Err(ParseError::Empty);
    }
    let n = rows.len();
    let ghost rs = row_chars(rows@);
    // The widest row, in bytes.
    let mut max_bytes: usize = 0;
    for i in 0..n
        invariant
            n == rs.len(),
            rs == row_chars(rows@),
            rows_fit(rs),
            max_bytes == max_row_bytes(rs.take(i as int)),
    {
        assert(rs.take(i + 1).drop_last() =~= rs.take(i as int));
        let l = rows[i].len();
        if l > max_bytes {
            max_bytes = l;
        }
    }
    assert(rs.take(n as int) =~= rs);
    proof {
        lemma_max_row_bytes_bound(rs);
    }
    let width = max_bytes as u16;
    let height = n as u16;
    let ghost grid = padded_grid(rs);

    // Pad every row with walls up to the width.
    let mut padded_rows: Vec<String> = Vec::new();
    let mut char_rows: Vec<Vec<char>> = Vec::new();
    for i in 0..n
        invariant
            n == rs.len(),
            rs == row_chars(rows@),
            rows_fit(rs),
            max_bytes == max_row_bytes(rs),
            grid == padded_grid(rs),
            forall|j: int| 0 <= j < rs.len() ==> row_bytes(#[trigger] rs[j]) <= max_row_bytes(rs),
            padded_rows@.len() == i,
            char_rows@.len() == i,
            forall|j: int| 0 <= j < i ==> #[trigger] padded_rows@[j]@ == grid[j],
            forall|j: int| 0 <= j < i ==> #[trigger] char_rows@[j]@ == grid[j],
    {
        assert(rs[i as int] == rows@[i as int]@);
        let mut cs = chars_of(rows[i]);
        let extra = max_bytes - rows[i].len();
        let ghost start = cs@;
        for _k in 0..extra
            invariant
                cs@ == start + Seq::new(_k as nat, |t: int| 'O'),
        {
            cs.push('O');
            assert(cs@ =~= start + Seq::new((_k + 1) as nat, |t: int| 'O'));
        }
        assert(cs@ =~= padded_row(rs[i as int], max_row_bytes(rs)));
        padded_rows.push(string_of(&cs));
        char_rows.push(cs);
    }

    let mut walls: Vec<Position> = Vec::new();
    let mut floor: Vec<Position> = Vec::new();
    let mut goals: Vec<Goal> = Vec::new();
    let mut boxes: Vec<BoxEntity> = Vec::new();
    let mut robot: Option<Position> = None;
    let mut several_robots = false;
    let mut box_counts: Vec<usize> = vec![0usize; 27];
    let mut goal_counts: Vec<usize> = vec![0usize; 27];

    let mut r: usize = 0;
    while r < n
        invariant
            n == rs.len(),
            grid == padded_grid(rs),
            grid.len() == n,
            char_rows@.len() == n,
            forall|j: int| 0 <= j < n ==> #[trigger] char_rows@[j]@ == grid[j],
            r <= n,
            rs == row_chars(rows@),
            max_bytes == max_row_bytes(rs),
            width as nat == max_bytes,
            height == n as u16,
            padded_rows@.len() == n,
            forall|j: int| 0 <= j < n ==> #[trigger] padded_rows@[j]@ == grid[j],
            walls@ == wall_positions(grid_cells(grid.take(r as int))),
            floor@ == floor_positions(grid_cells(grid.take(r as int))),
            goals@ == goal_list(grid_cells(grid.take(r as int))),
            boxes_view(boxes@) == box_list(grid_cells(grid.take(r as int))),
            robot == first_robot(grid_cells(grid.take(r as int))),
            several_robots == (robot_count(grid_cells(grid.take(r as int))) >= 2),
            box_counts@.len() == 27,
            goal_counts@.len() == 27,
            forall|l: int| 0 <= l < 27 ==> #[trigger] box_counts@[l] == box_count(grid_cells(grid.take(r as int)), l as u8),
            forall|l: int| 0 <= l < 27 ==> #[trigger] goal_counts@[l] == goal_count(grid_cells(grid.take(r as int)), l as u8),
        decreases n - r,
    {
        let row = &char_rows[r];
        let ghost before = grid_cells(grid.take(r as int));
        assert(scanned(grid, r as int, 0) =~= before);
        let mut c: usize = 0;
        while c < row.len()
            invariant
                n == rs.len(),
                r < n,
                grid.len() == n,
                row@ == grid[r as int],
                before == grid_cells(grid.take(r as int)),
                c <= row@.len(),
                walls@ == wall_positions(scanned(grid, r as int, c as int)),
                floor@ == floor_positions(scanned(grid, r as int, c as int)),
                goals@ == goal_list(scanned(grid, r as int, c as int)),
                boxes_view(boxes@) == box_list(scanned(grid, r as int, c as int)),
                robot == first_robot(scanned(grid, r as int, c as int)),
                several_robots == (robot_count(scanned(grid, r as int, c as int)) >= 2),
                box_counts@.len() == 27,
                goal_counts@.len() == 27,
                forall|l: int| 0 <= l < 27 ==> #[trigger] box_counts@[l] == box_count(scanned(grid, r as int, c as int), l as u8),
                forall|l: int| 0 <= l < 27 ==> #[trigger] goal_counts@[l] == goal_count(scanned(grid, r as int, c as int), l as u8),
            decreases row@.len() - c,
        {
            let ch = row[c];
            let pos = Position::new(r as i16, c as i16);
            let ghost p = scanned(grid, r as int, c as int);
            assert(scanned(grid, r as int, c + 1) =~= p.push((pos, ch)));
            proof {
                lemma_cells_push(p, (pos, ch));
                lemma_labels_small(ch);
                lemma_box_count_le(p, 0);
                lemma_first_robot(p);
                if let Some(l) = spec_from_box_char(ch) {
                    lemma_box_count_le(p, l.0);
                }
                if let Some(l) = spec_from_goal_char(ch) {
                    lemma_box_count_le(p, l.0);
                }
            }
            let ghost old_boxes = boxes@;
            if ch == 'O' {
                walls.push(pos);
            } else if ch == ' ' {
                floor.push(pos);
            } else if ch == 'R' {
                if robot.is_some() {
                    several_robots = true;
                } else {
                    robot = Some(pos);
                }
                floor.push(pos);
            } else if let Some(label) = Label::from_box_char(ch) {
                let li = label.0 as usize;
                let count = box_counts[li];
                let mut id = String::new();
                push_char(&mut id, ch);
                push_char(&mut id, ':');
                push_decimal(&mut id, count as u64);
                assert(id@ =~= box_id(ch, count as nat));
                let b = BoxEntity { id, label, position: pos };
                boxes.push(b);
                assert(boxes_view(boxes@) =~= boxes_view(old_boxes).push(b@));
                assert(boxes@.len() == boxes.len());
                box_counts.set(li, count + 1);
                floor.push(pos);
            } else if let Some(label) = Label::from_goal_char(ch) {
                let li = label.0 as usize;
                let count = goal_counts[li];
                goals.push(Goal { label, position: pos });
                assert(goals@.len() == goals.len());
                goal_counts.set(li, count + 1);
                floor.push(pos);
            } else {
                walls.push(pos);
            }
            c += 1;
        }
        assert(grid.take(r + 1).drop_last() =~= grid.take(r as int));
        assert(scanned(grid, r as int, row@.len() as int) =~= grid_cells(grid.take(r + 1)));
        r += 1;
    }
    assert(grid.take(n as int) =~= grid);

    if several_robots {
        return Err(ParseError::MultipleRobots);
    }
    let initial_robot = match robot {
        Some(p) => p,
        None => {
            proof {
                lemma_first_robot(grid_cells(grid));
            }
            return Err(ParseError::NoRobot);
        },
    };
    if boxes.len() == 0 {
        proof {
            lemma_first_robot(grid_cells(grid));
            assert(boxes_view(boxes@).len() == boxes@.len());
        }
        return Err(ParseError::NoBoxes);
    }
    let ghost cells = grid_cells(grid);
    proof {
        lemma_first_robot(cells);
        assert(boxes_view(boxes@).len() == boxes@.len());
    }
    let mut l: usize = 0;
    while l < 27
        invariant
            l <= 27,
            box_counts@.len() == 27,
            goal_counts@.len() == 27,
            forall|k: int| 0 <= k < 27 ==> #[trigger] box_counts@[k] == box_count(cells, k as u8),
            forall|k: int| 0 <= k < 27 ==> #[trigger] goal_counts@[k] == goal_count(cells, k as u8),
            first_mismatch(cells, 0) == first_mismatch(cells, l as nat),
            cells == board_cells(row_chars(rows@)),
            rs.len() > 0,
            robot_count(cells) == 1,
            box_list(cells).len() > 0,
        decreases 27 - l,
    {
        let bc = box_counts[l];
        let gc = goal_counts[l];
        if bc != gc {
            let label_char: char = if l == 0 {
                'X'
            } else {
                (65u8 + (l as u8) - 1) as char
            };
            assert(label_char == label_letter(l as u8));
            return Err(ParseError::LabelMismatch { label: label_char, boxes: bc, goals: gc });
        }
        l += 1;
    }
    Ok(
        ParsedBoard {
            width,
            height,
            rows: padded_rows,
            walls,
            floor,
            goals,
            initial_robot,
            initial_boxes: boxes,
        },
    )
}

/// `a` comes before `b` in row-major order.
pub open spec fn pos_before(a: Position, b: Position) -> bool {
    a.row < b.row || (a.row == b.row && a.col < b.col)
}

/// A character takes at least one byte.
proof fn lemma_bytes_cover_chars(chars: Seq<char>)
    ensures
        encode_utf8(chars).len() >= chars.len(),
    decreases chars.len(),
{
    if chars.len() > 0 {
        lemma_bytes_cover_chars(chars.drop_first());
    }
}

/// No row is wider than the board.
proof fn lemma_row_within_width(rows: Seq<Seq<char>>)
    ensures
        forall|i: int| 0 <= i < rows.len() ==> row_bytes(#[trigger] rows[i]) <= max_row_bytes(rows),
    decreases rows.len(),
{
    if rows.len() > 0 {
        lemma_row_within_width(rows.drop_last());
        assert forall|i: int| 0 <= i < rows.len() implies row_bytes(#[trigger] rows[i]) <= max_row_bytes(rows) by {
            if i < rows.len() - 1 {
                assert(rows[i] == rows.drop_last()[i]);
            }
        }
    }
}

/// The cells of a grid of at most `i16::MAX` rows of at most `i16::MAX`
/// cells come in strictly increasing row-major order, on its rows.
proof fn lemma_grid_increasing(grid: Seq<Seq<char>>)
    requires
        grid.len() <= i16::MAX,
        forall|r: int| 0 <= r < grid.len() ==> #[trigger] grid[r].len() <= i16::MAX,
    ensures
        forall|i: int, j: int|
            0 <= i < j < grid_cells(grid).len() ==> pos_before(#[trigger] grid_cells(grid)[i].0, #[trigger] grid_cells(grid)[j].0),
        forall|i: int| 0 <= i < grid_cells(grid).len() ==> 0 <= #[trigger] grid_cells(grid)[i].0.row < grid.len(),
    decreases grid.len(),
{
    if grid.len() > 0 {
        let g = grid.drop_last();
        assert forall|r: int| 0 <= r < g.len() implies #[trigger] g[r].len() <= i16::MAX by {
            assert(g[r] == grid[r]);
        }
        lemma_grid_increasing(g);
        let pre = grid_cells(g);
        let last = row_cells(grid.len() - 1, grid.last());
        let all = grid_cells(grid);
        assert(all == pre + last);
        let r = grid.len() - 1;
        assert(grid.last().len() <= i16::MAX);
        assert forall|k: int| 0 <= k < last.len() implies #[trigger] last[k].0.row == r && last[k].0.col == k by {
            assert((r as i16) as int == r);
            assert((k as i16) as int == k);
        }
        assert forall|i: int, j: int| 0 <= i < j < all.len() implies pos_before(#[trigger] all[i].0, #[trigger] all[j].0) by {
            if j < pre.len() {
                assert(all[i] == pre[i] && all[j] == pre[j]);
            } else if i >= pre.len() {
                assert(all[i] == last[i - pre.len()] && all[j] == last[j - pre.len()]);
            } else {
                assert(all[i] == pre[i] && all[j] == last[j - pre.len()]);
            }
        }
        assert forall|i: int| 0 <= i < all.len() implies 0 <= #[trigger] all[i].0.row < grid.len() by {
            if i < pre.len() {
                assert(all[i] == pre[i]);
            } else {
                assert(all[i] == last[i - pre.len()]);
            }
        }
    }
}

/// The floor positions of cells in strictly increasing order come in
/// strictly increasing order too, none after the last cell.
proof fn lemma_floor_increasing(cells: Seq<(Position, char)>)
    requires
        forall|i: int, j: int| 0 <= i < j < cells.len() ==> pos_before(#[trigger] cells[i].0, #[trigger] cells[j].0),
    ensures
        forall|i: int, j: int|
            0 <= i < j < floor_positions(cells).len() ==> pos_before(
                #[trigger] floor_positions(cells)[i],
                #[trigger] floor_positions(cells)[j],
            ),
        cells.len() > 0 ==> forall|i: int|
            0 <= i < floor_positions(cells).len() ==> #[trigger] floor_positions(cells)[i] == cells.last().0 || pos_before(
                floor_positions(cells)[i],
                cells.last().0,
            ),
    decreases cells.len(),
{
    if cells.len() > 0 {
        let c = cells.drop_last();
        lemma_floor_increasing(c);
        let fp = floor_positions(c);
        let all = floor_positions(cells);
        if c.len() > 0 {
            assert(pos_before(cells[c.len() - 1].0, cells.last().0));
            assert(c.last() == cells[c.len() - 1]);
        }
        if !is_wall_char(cells.last().1) {
            assert(all == fp.push(cells.last().0));
            assert forall|i: int, j: int| 0 <= i < j < all.len() implies pos_before(#[trigger] all[i], #[trigger] all[j]) by {
                if j < fp.len() {
                    assert(all[i] == fp[i] && all[j] == fp[j]);
                } else {
                    assert(all[i] == fp[i]);
                }
            }
        } else {
            assert(all == fp);
        }
    }
}

/// On a board of at most `i16::MAX` rows and columns, the floor cells come
/// in row-major order.
pub proof fn lemma_floor_row_major(board: ParsedBoard, rows: Seq<Seq<char>>)
    requires
        describes(board, rows),
        rows.len() <= i16::MAX,
        max_row_bytes(rows) <= i16::MAX,
    ensures
        forall|a: int, b: int|
            0 <= a < b < board.floor@.len() ==> pos_before(#[trigger] board.floor@[a], #[trigger] board.floor@[b]),
{
    let grid = padded_grid(rows);
    lemma_row_within_width(rows);
    assert forall|r: int| 0 <= r < grid.len() implies #[trigger] grid[r].len() <= i16::MAX by {
        lemma_bytes_cover_chars(rows[r]);
        assert(grid[r] == padded_row(rows[r], max_row_bytes(rows)));
    }
    lemma_grid_increasing(grid);
    lemma_floor_increasing(grid_cells(grid));
}

/// On a board of at most `i16::MAX` rows and columns, no two floor cells
/// share a position.
pub proof fn lemma_floor_distinct(board: ParsedBoard, rows: Seq<Seq<char>>)
    requires
        describes(board, rows),
        rows.len() <= i16::MAX,
        max_row_bytes(rows) <= i16::MAX,
    ensures
        distinct_floor(board.floor@),
{
    let grid = padded_grid(rows);
    lemma_row_within_width(rows);
    assert forall|r: int| 0 <= r < grid.len() implies #[trigger] grid[r].len() <= i16::MAX by {
        lemma_bytes_cover_chars(rows[r]);
        assert(grid[r] == padded_row(rows[r], max_row_bytes(rows)));
    }
    lemma_grid_increasing(grid);
    lemma_floor_increasing(grid_cells(grid));
    let f = board.floor@;
    assert(f == floor_positions(board_cells(rows)));
    assert forall|i: int, j: int| 0 <= i < j < f.len() implies #[trigger] f[i] != #[trigger] f[j] by {
        assert(pos_before(f[i], f[j]));
    }
}

} // verus!
