use vstd::prelude::*;

use crate::position::Position;

verus! {

/// Box and goal label: 0 is the generic label (boxes `X`, goals `S`),
/// 1 to 26 stand for the letters `A`..`Z` (boxes upper case, goals lower case).
#[derive(Clone, Copy, PartialEq, Eq, Structural, Hash, Debug)]
pub struct Label(pub u8);

/// Upper-case letters that may name a typed box: every letter but
/// `O` (wall), `R` (robot), `S` (generic goal) and `X` (generic box).
pub open spec fn is_typed_box_char(c: char) -> bool {
    ||| 'A' <= c <= 'N'
    ||| 'P' <= c <= 'Q'
    ||| 'T' <= c <= 'W'
    ||| 'Y' <= c <= 'Z'
}

/// Lower-case letters that may name a typed goal: every letter but
/// `o`, `r`, `s` and `x`.
pub open spec fn is_typed_goal_char(c: char) -> bool {
    ||| 'a' <= c <= 'n'
    ||| 'p' <= c <= 'q'
    ||| 't' <= c <= 'w'
    ||| 'y' <= c <= 'z'
}

pub open spec fn spec_from_box_char(c: char) -> Option<Label> {
    if c == 'X' {
        Some(Label(0))
    } else if is_typed_box_char(c) {
        Some(Label((c as int - 'A' as int + 1) as u8))
    } else {
        None
    }
}

pub open spec fn spec_from_goal_char(c: char) -> Option<Label> {
    if c == 'S' {
        Some(Label(0))
    } else if is_typed_goal_char(c) {
        Some(Label((c as int - 'a' as int + 1) as u8))
    } else {
        None
    }
}

pub open spec fn spec_box_char(label: Label) -> char {
    if label.0 == 0 {
        'X'
    } else {
        (65 + label.0 - 1) as char
    }
}

pub open spec fn spec_goal_char(label: Label) -> char {
    if label.0 == 0 {
        'S'
    } else {
        (97 + label.0 - 1) as char
    }
}

impl Label {
    /// The generic label of `X` boxes and `S` goals.
    pub fn generic() -> (l: Label)
        ensures
            l.0 == 0,
    {
        Label(0)
    }

    pub fn from_box_char(c: char) -> (l: Option<Label>)
        ensures
            l == spec_from_box_char(c),
    {
        if c == 'X' {
            Some(Label(0))
        } else if ('A' <= c && c <= 'N') || ('P' <= c && c <= 'Q') || ('T' <= c && c <= 'W') || (
        'Y' <= c && c <= 'Z') {
            Some(Label((c as u32 - 'A' as u32 + 1) as u8))
        } else {
            None
        }
    }

    pub fn from_goal_char(c: char) -> (l: Option<Label>)
        ensures
            l == spec_from_goal_char(c),
    {
        if c == 'S' {
            Some(Label(0))
        } else if ('a' <= c && c <= 'n') || ('p' <= c && c <= 'q') || ('t' <= c && c <= 'w') || (
        'y' <= c && c <= 'z') {
            Some(Label((c as u32 - 'a' as u32 + 1) as u8))
        } else {
            None
        }
    }

    /// The board letter of a box with this label.
    pub fn box_char(self) -> (c: char)
        requires
            65 + self.0 <= 255,
        ensures
            c == spec_box_char(self),
    {
        if self.0 == 0 {
            'X'
        } else {
            (65u8 + self.0 - 1) as char
        }
    }

    /// The board letter of a goal with this label.
    pub fn goal_char(self) -> (c: char)
        requires
            97 + self.0 <= 255,
        ensures
            c == spec_goal_char(self),
    {
        if self.0 == 0 {
            'S'
        } else {
            (97u8 + self.0 - 1) as char
        }
    }

    pub fn is_generic(self) -> (b: bool)
        ensures
            b == (self.0 == 0),
    {
        self.0 == 0
    }
}

/// A box on the board with a stable identifier `"<letter>:<index>"`, where
/// the index counts the earlier boxes of the same label in row-major order.
#[derive(Clone, PartialEq, Eq, Hash, Debug)]
pub struct BoxEntity {
    pub id: String,
    pub label: Label,
    pub position: Position,
}

/// A goal cell on the board.
#[derive(Clone, Copy, PartialEq, Eq, Structural, Hash, Debug)]
pub struct Goal {
    pub label: Label,
    pub position: Position,
}

/// The mathematical content of a box: its identifier as characters, its label, its position.
#[verifier::ext_equal]
pub struct BoxView {
    pub id: Seq<char>,
    pub label: Label,
    pub position: Position,
}

impl View for BoxEntity {
    type V = BoxView;

    open spec fn view(&self) -> BoxView {
        BoxView { id: self.id@, label: self.label, position: self.position }
    }
}

impl BoxEntity {
    /// A copy of the box; the copy has the same identifier, label and position.
    pub fn duplicate(&self) -> (b: BoxEntity)
        ensures
            b@ == self@,
    {
        BoxEntity { id: self.id.clone(), label: self.label, position: self.position }
    }
}

/// Every typed box letter comes back from its label.
pub proof fn lemma_box_char_roundtrip(c: char)
    requires
        spec_from_box_char(c) is Some,
    ensures
        spec_box_char(spec_from_box_char(c).unwrap()) == c,
        spec_from_goal_char(spec_goal_char(spec_from_box_char(c).unwrap()))
            == spec_from_box_char(c),
{
    if c != 'X' {
        assert((65 + (c as int - 'A' as int + 1) as u8 - 1) as char == c);
    }
}

/// Every typed goal letter comes back from its label.
pub proof fn lemma_goal_char_roundtrip(c: char)
    requires
        spec_from_goal_char(c) is Some,
    ensures
        spec_goal_char(spec_from_goal_char(c).unwrap()) == c,
{
}

} // verus!
