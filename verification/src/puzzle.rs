use vstd::prelude::*;

use crate::board::{describes, parse_board, parse_outcome, row_chars, rows_fit, ParseError, ParsedBoard};
use crate::text::{decimal, hex_digits, push_char, push_decimal, push_hex_digits, push_str_chars};
use vstd::utf8::encode_utf8;

verus! {

broadcast use vstd::std_specs::vec::group_vec_axioms;

#[derive(Clone, Copy, Debug, PartialEq, Eq, Structural)]
pub enum Difficulty {
    Tutorial,
    Beginner,
    Intermediate,
    Advanced,
    Expert,
    Master,
}

#[derive(Clone, Debug)]
pub struct PuzzleDefinition {
    pub id: String,
    pub title: String,
    pub difficulty: Difficulty,
    pub rows: Vec<String>,
    pub boxes: u16,
    pub hint: Option<String>,
    pub collection: Option<String>,
}

/// The characters of each string.
pub open spec fn string_chars(rows: Seq<String>) -> Seq<Seq<char>> {
    rows.map_values(|s: String| s@)
}

impl PuzzleDefinition {
    /// Parses the rows of the puzzle.
    pub fn parse_board(&self) -> (res: Result<ParsedBoard, ParseError>)
        requires
            rows_fit(string_chars(self.rows@)),
        ensures
            match res {
                Ok(board) => parse_outcome(string_chars(self.rows@)) is None && describes(
                    board,
                    string_chars(self.rows@),
                ),
                Err(e) => parse_outcome(string_chars(self.rows@)) == Some(e),
            },
    {
        let mut row_refs: Vec<&str> = Vec::new();
        for i in 0..self.rows.len()
            invariant
                row_refs@.len() == i,
                forall|k: int| 0 <= k < i ==> (#[trigger] row_refs@[k])@ == self.rows@[k]@,
        {
            row_refs.push(self.rows[i].as_str());
        }
        assert(row_chars(row_refs@) =~= string_chars(self.rows@));
        parse_board(row_refs.as_slice())
    }
}

/// The lines joined with newline characters.
pub open spec fn join_lines(lines: Seq<Seq<char>>) -> Seq<char>
    decreases lines.len(),
{
    if lines.len() == 0 {
        Seq::empty()
    } else if lines.len() == 1 {
        lines[0]
    } else {
        join_lines(lines.drop_last()) + seq!['\n'] + lines.last()
    }
}

/// The 32-bit FNV-1a hash of `bytes`, continuing from state `h`.
pub open spec fn fnv1a(h: u32, bytes: Seq<u8>) -> u32
    decreases bytes.len(),
{
    if bytes.len() == 0 {
        h
    } else {
        vstd::wrapping::u32_specs::wrapping_mul(
            fnv1a(h, bytes.drop_last()) ^ (bytes.last() as u32),
            16777619,
        )
    }
}

/// The text that is hashed: a version tag, the box count, and the rows.
pub open spec fn fingerprint_input(rows: Seq<Seq<char>>, boxes: u16) -> Seq<char> {
    "puzzle-v1:"@ + decimal(boxes as nat) + seq![':'] + join_lines(rows)
}

/// The fingerprint: the version tag and eight hex digits of the FNV-1a hash of
/// the UTF-8 bytes of the input text.
pub open spec fn fingerprint_spec(rows: Seq<Seq<char>>, boxes: u16) -> Seq<char> {
    "puzzle-v1:"@ + hex_digits(
        fnv1a(2166136261, encode_utf8(fingerprint_input(rows, boxes))) as nat,
        8,
    )
}

/// Computes a deterministic fingerprint of a puzzle's board content, used to
/// invalidate saved progress when a puzzle is edited.
pub fn puzzle_fingerprint(rows: &[String], boxes: u16) -> (f: String)
    ensures
        f@ == fingerprint_spec(string_chars(rows@), boxes),
{
    let ghost lines = string_chars(rows@);
    let mut input = String::new();
    push_str_chars(&mut input, "puzzle-v1:");
    push_decimal(&mut input, boxes as u64);
    push_char(&mut input, ':');
    let ghost head = input@;
    for i in 0..rows.len()
        invariant
            lines == string_chars(rows@),
            input@ == head + join_lines(lines.take(i as int)),
    {
        let ghost before = input@;
        if i > 0 {
            push_char(&mut input, '\n');
        }
        push_str_chars(&mut input, rows[i].as_str());
        assert(lines.take(i + 1).drop_last() =~= lines.take(i as int));
        assert(lines[i as int] == rows@[i as int]@);
        assert(input@ =~= head + join_lines(lines.take(i + 1)));
    }
    assert(lines.take(rows.len() as int) =~= lines);
    assert(input@ =~= fingerprint_input(lines, boxes));

    let bytes = input.as_str().as_bytes();
    let mut hash: u32 = 2166136261;
    for i in 0..bytes.len()
        invariant
            hash == fnv1a(2166136261, bytes@.take(i as int)),
    {
        assert(bytes@.take(i + 1).drop_last() =~= bytes@.take(i as int));
        hash = hash ^ (bytes[i] as u32);
        hash = hash.wrapping_mul(16777619);
    }
    assert(bytes@.take(bytes@.len() as int) =~= bytes@);

    let mut out = String::new();
    push_str_chars(&mut out, "puzzle-v1:");
    push_hex_digits(&mut out, hash as u64, 8);
    out
}

} // verus!
