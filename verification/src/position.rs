use vstd::prelude::*;

verus! {

/// A cell coordinate on the board: `row` grows downwards, `col` grows to the right.
#[derive(Clone, Copy, PartialEq, Eq, Structural, Hash, Debug)]
pub struct Position {
    pub row: i16,
    pub col: i16,
}

/// One of the four moves of the robot.
#[derive(Clone, Copy, PartialEq, Eq, Structural, Hash, Debug)]
pub enum Direction {
    Up,
    Down,
    Left,
    Right,
}

/// The unit vector `(row delta, col delta)` of a direction.
pub open spec fn spec_delta(dir: Direction) -> (int, int) {
    match dir {
        Direction::Up => (-1, 0),
        Direction::Down => (1, 0),
        Direction::Left => (0, -1),
        Direction::Right => (0, 1),
    }
}

/// The direction that undoes `dir`.
pub open spec fn spec_opposite(dir: Direction) -> Direction {
    match dir {
        Direction::Up => Direction::Down,
        Direction::Down => Direction::Up,
        Direction::Left => Direction::Right,
        Direction::Right => Direction::Left,
    }
}

/// Both coordinates of `pos` stay inside `i16` after one step in `dir`.
pub open spec fn offset_in_range(pos: Position, dir: Direction) -> bool {
    &&& i16::MIN <= pos.row + spec_delta(dir).0 <= i16::MAX
    &&& i16::MIN <= pos.col + spec_delta(dir).1 <= i16::MAX
}

/// The neighbouring position of `pos` in direction `dir`.
pub open spec fn spec_offset(pos: Position, dir: Direction) -> Position {
    Position {
        row: (pos.row + spec_delta(dir).0) as i16,
        col: (pos.col + spec_delta(dir).1) as i16,
    }
}

/// The upper-case letter of a direction.
pub open spec fn spec_to_char(dir: Direction) -> char {
    match dir {
        Direction::Up => 'U',
        Direction::Down => 'D',
        Direction::Left => 'L',
        Direction::Right => 'R',
    }
}

/// The direction a letter of an action log stands for (either case).
pub open spec fn spec_from_char(c: char) -> Option<Direction> {
    if c == 'U' || c == 'u' {
        Some(Direction::Up)
    } else if c == 'D' || c == 'd' {
        Some(Direction::Down)
    } else if c == 'L' || c == 'l' {
        Some(Direction::Left)
    } else if c == 'R' || c == 'r' {
        Some(Direction::Right)
    } else {
        None
    }
}

/// The index of a direction in `Direction::ALL`.
pub open spec fn spec_index(dir: Direction) -> int {
    match dir {
        Direction::Up => 0,
        Direction::Down => 1,
        Direction::Left => 2,
        Direction::Right => 3,
    }
}

impl Position {
    pub fn new(row: i16, col: i16) -> (p: Position)
        ensures
            p.row == row,
            p.col == col,
    {
        Position { row, col }
    }

    pub fn offset(self, dir: Direction) -> (p: Position)
        requires
            offset_in_range(self, dir),
        ensures
            p == spec_offset(self, dir),
            p.row == self.row + spec_delta(dir).0,
            p.col == self.col + spec_delta(dir).1,
    {
        let (dr, dc) = dir.delta();
        Position { row: self.row + dr, col: self.col + dc }
    }
}

impl Direction {
    /// All four directions, in the order of `spec_index`.
    pub const ALL: [Direction; 4] = [Direction::Up, Direction::Down, Direction::Left, Direction::Right];

    pub fn delta(self) -> (d: (i16, i16))
        ensures
            d.0 == spec_delta(self).0,
            d.1 == spec_delta(self).1,
    {
        match self {
            Direction::Up => (-1, 0),
            Direction::Down => (1, 0),
            Direction::Left => (0, -1),
            Direction::Right => (0, 1),
        }
    }

    pub fn opposite(self) -> (d: Direction)
        ensures
            d == spec_opposite(self),
    {
        match self {
            Direction::Up => Direction::Down,
            Direction::Down => Direction::Up,
            Direction::Left => Direction::Right,
            Direction::Right => Direction::Left,
        }
    }

    pub fn from_char(c: char) -> (d: Option<Direction>)
        ensures
            d == spec_from_char(c),
    {
        match c {
            'U' | 'u' => Some(Direction::Up),
            'D' | 'd' => Some(Direction::Down),
            'L' | 'l' => Some(Direction::Left),
            'R' | 'r' => Some(Direction::Right),
            _ => None,
        }
    }

    pub fn to_char(self) -> (c: char)
        ensures
            c == spec_to_char(self),
    {
        match self {
            Direction::Up => 'U',
            Direction::Down => 'D',
            Direction::Left => 'L',
            Direction::Right => 'R',
        }
    }

    /// The position of this direction in `Direction::ALL` (its discriminant).
    pub fn index(self) -> (i: usize)
        ensures
            i == spec_index(self),
            i < 4,
    {
        match self {
            Direction::Up => 0,
            Direction::Down => 1,
            Direction::Left => 2,
            Direction::Right => 3,
        }
    }
}

/// Stepping in a direction and then in its opposite returns to the start.
pub proof fn lemma_offset_opposite_roundtrip(pos: Position, dir: Direction)
    requires
        offset_in_range(pos, dir),
    ensures
        offset_in_range(spec_offset(pos, dir), spec_opposite(dir)),
        spec_offset(spec_offset(pos, dir), spec_opposite(dir)) == pos,
{
}

/// The opposite of the opposite direction is the direction itself, and no
/// direction is its own opposite.
pub proof fn lemma_opposite_involution(dir: Direction)
    ensures
        spec_opposite(spec_opposite(dir)) == dir,
        spec_opposite(dir) != dir,
{
}

/// Every delta is a unit step along exactly one axis.
pub proof fn lemma_delta_unit(dir: Direction)
    ensures
        ({
            let (dr, dc) = spec_delta(dir);
            (if dr < 0 { -dr } else { dr }) + (if dc < 0 { -dc } else { dc }) == 1
        }),
{
}

/// Reading back the letter of a direction gives the direction.
pub proof fn lemma_char_roundtrip(dir: Direction)
    ensures
        spec_from_char(spec_to_char(dir)) == Some(dir),
{
}

} // verus!
