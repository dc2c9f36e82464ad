use vstd::prelude::*;

use crate::board::ParsedBoard;
use crate::game::{
    create_snapshot, in_bounds, initial_view, rows_cover_height, spec_is_wall, step_defined,
    step_snapshot, step_view, GameSnapshot, SnapshotView,
};
use crate::position::{
    offset_in_range, spec_from_char, spec_offset, spec_to_char, Direction, Position,
};
use crate::text::{chars_of, push_char};

verus! {

/// Why an action log could not be replayed.
#[derive(Debug, PartialEq, Eq, Structural)]
pub enum ReplayError {
    InvalidChar { index: usize, char: char },
    BlockedAt { index: usize },
}

/// The action log of a sequence of directions: one upper-case letter per step.
pub open spec fn encode_spec(dirs: Seq<Direction>) -> Seq<char> {
    dirs.map_values(|d: Direction| spec_to_char(d))
}

/// Decoding the characters from index `i` on: the directions, or the index and
/// character of the first letter that names no direction.
pub open spec fn decode_from(cs: Seq<char>, i: nat) -> Result<Seq<Direction>, (nat, char)>
    decreases cs.len() - i,
{
    if i >= cs.len() {
        Ok(Seq::empty())
    } else {
        match spec_from_char(cs[i as int]) {
            None => Err((i, cs[i as int])),
            Some(d) => match decode_from(cs, i + 1) {
                Ok(rest) => Ok(seq![d] + rest),
                Err(e) => Err(e),
            },
        }
    }
}

/// Decoding a whole action log.
pub open spec fn decode_spec(cs: Seq<char>) -> Result<Seq<Direction>, (nat, char)> {
    decode_from(cs, 0)
}

/// Decoding from index `i` on succeeds exactly when every character from
/// there names a direction, and then gives one direction per character;
/// otherwise it names the first character that does not.
pub proof fn lemma_decode_from_shape(cs: Seq<char>, i: nat)
    requires
        i <= cs.len(),
    ensures
        decode_from(cs, i) is Ok <==> forall|j: int| i <= j < cs.len() ==> (#[trigger] spec_from_char(cs[j])) is Some,
        decode_from(cs, i) matches Ok(v) ==> v.len() == cs.len() - i && forall|j: int|
            0 <= j < v.len() ==> spec_from_char(cs[i + j]) == Some(#[trigger] v[j]),
        decode_from(cs, i) matches Err(e) ==> {
            &&& i <= e.0 < cs.len()
            &&& e.1 == cs[e.0 as int]
            &&& spec_from_char(cs[e.0 as int]) is None
            &&& forall|j: int| i <= j < e.0 ==> (#[trigger] spec_from_char(cs[j])) is Some
        },
    decreases cs.len() - i,
{
    if i < cs.len() {
        lemma_decode_from_shape(cs, i + 1);
        if let Some(d) = spec_from_char(cs[i as int]) {
            if let Ok(rest) = decode_from(cs, i + 1) {
                let v = seq![d] + rest;
                assert forall|j: int| 0 <= j < v.len() implies spec_from_char(cs[i + j]) == Some(#[trigger] v[j]) by {
                    if j > 0 {
                        assert(v[j] == rest[j - 1]);
                        assert(spec_from_char(cs[(i + 1) + (j - 1)]) == Some(rest[j - 1]));
                    }
                }
            }
        }
    }
}

/// Replaying `dirs` from index `i` on, starting in `s`: the final snapshot, or
/// the index of the first step that did not move.
pub open spec fn replay_from(board: ParsedBoard, s: SnapshotView, dirs: Seq<Direction>, i: nat) -> Result<
    SnapshotView,
    nat,
>
    decreases dirs.len() - i,
{
    if i >= dirs.len() {
        Ok(s)
    } else {
        let t = step_view(board, s, dirs[i as int]);
        if !t.moved {
            Err(i)
        } else {
            replay_from(board, t.snapshot, dirs, i + 1)
        }
    }
}

/// Neither coordinate of `pos` is at an end of the `i16` range, so every
/// neighbour of `pos` is representable.
pub open spec fn pos_safe(pos: Position) -> bool {
    &&& i16::MIN < pos.row < i16::MAX
    &&& i16::MIN < pos.col < i16::MAX
}

/// A board on which a game can be replayed: its rows cover its height and the
/// robot starts where every neighbour is representable.
pub open spec fn replayable(board: ParsedBoard) -> bool {
    &&& rows_cover_height(board)
    &&& pos_safe(board.initial_robot)
}

pub fn encode_action_log(directions: &[Direction]) -> (s: String)
    ensures
        s@ == encode_spec(directions@),
{
    let mut s = String::new();
    for i in 0..directions.len()
        invariant
            s@ == encode_spec(directions@.take(i as int)),
    {
        push_char(&mut s, directions[i].to_char());
        assert(encode_spec(directions@.take(i + 1)) =~= encode_spec(directions@.take(i as int)).push(
            spec_to_char(directions@[i as int]),
        ));
    }
    assert(directions@.take(directions@.len() as int) =~= directions@);
    s
}

pub fn decode_action_log(log: &str) -> (r: Result<Vec<Direction>, ReplayError>)
    ensures
        match decode_spec(log@) {
            Ok(dirs) => r matches Ok(v) && v@ == dirs,
            Err((i, c)) => r == Err::<Vec<Direction>, ReplayError>(
                ReplayError::InvalidChar { index: i as usize, char: c },
            ),
        },
{
    let cs = chars_of(log);
    let mut out: Vec<Direction> = Vec::new();
    for i in 0..cs.len()
        invariant
            cs@ == log@,
            out@.len() == i,
            forall|k: int| 0 <= k < i ==> spec_from_char(cs@[k]) == Some(#[trigger] out@[k]),
    {
        match Direction::from_char(cs[i]) {
            Some(d) => {
                out.push(d);
            },
            None => {
                proof {
                    lemma_decode_error(cs@, out@, i as nat);
                }
                return Err(ReplayError::InvalidChar { index: i, char: cs[i] });
            },
        }
    }
    proof {
        lemma_decode_ok(cs@, out@, 0);
        assert(out@.skip(0) =~= out@);
    }
    Ok(out)
}

proof fn lemma_decode_ok(cs: Seq<char>, out: Seq<Direction>, i: nat)
    requires
        out.len() == cs.len(),
        i <= cs.len(),
        forall|k: int| 0 <= k < cs.len() ==> spec_from_char(cs[k]) == Some(#[trigger] out[k]),
    ensures
        decode_from(cs, i) == Ok::<Seq<Direction>, (nat, char)>(out.skip(i as int)),
    decreases cs.len() - i,
{
    if i < cs.len() {
        lemma_decode_ok(cs, out, i + 1);
        assert(seq![out[i as int]] + out.skip((i + 1) as int) =~= out.skip(i as int));
    } else {
        assert(out.skip(i as int) =~= Seq::<Direction>::empty());
    }
}

proof fn lemma_decode_error(cs: Seq<char>, out: Seq<Direction>, i: nat)
    requires
        i < cs.len(),
        out.len() == i,
        spec_from_char(cs[i as int]) is None,
        forall|k: int| 0 <= k < i ==> spec_from_char(cs[k]) == Some(#[trigger] out[k]),
    ensures
        decode_spec(cs) == Err::<Seq<Direction>, (nat, char)>((i, cs[i as int])),
{
    lemma_decode_error_from(cs, out, i, 0);
}

proof fn lemma_decode_error_from(cs: Seq<char>, out: Seq<Direction>, i: nat, j: nat)
    requires
        j <= i < cs.len(),
        out.len() == i,
        spec_from_char(cs[i as int]) is None,
        forall|k: int| 0 <= k < i ==> spec_from_char(cs[k]) == Some(#[trigger] out[k]),
    ensures
        decode_from(cs, j) == Err::<Seq<Direction>, (nat, char)>((i, cs[i as int])),
    decreases i - j,
{
    if j < i {
        lemma_decode_error_from(cs, out, i, j + 1);
        assert(spec_from_char(cs[j as int]) == Some(out[j as int]));
    }
}

/// Replays an action log from the start of the game.
pub fn replay_action_log(board: &ParsedBoard, log: &str) -> (r: Result<GameSnapshot, ReplayError>)
    requires
        replayable(*board),
        log@.len() <= u32::MAX,
    ensures
        match decode_spec(log@) {
            Err((i, c)) => r == Err::<GameSnapshot, ReplayError>(
                ReplayError::InvalidChar { index: i as usize, char: c },
            ),
            Ok(dirs) => match replay_from(*board, initial_view(*board), dirs, 0) {
                Ok(v) => r matches Ok(s) && s@ == v,
                Err(i) => r == Err::<GameSnapshot, ReplayError>(
                    ReplayError::BlockedAt { index: i as usize },
                ),
            },
        },
{
    let directions = match decode_action_log(log) {
        Ok(d) => d,
        Err(e) => {
            return Err(e);
        },
    };
    proof {
        lemma_decode_len(log@, 0);
    }
    let mut snapshot = create_snapshot(board);
    let ghost dirs = directions@;
    for i in 0..directions.len()
        invariant
            dirs == directions@,
            decode_spec(log@) == Ok::<Seq<Direction>, (nat, char)>(dirs),
            dirs.len() <= u32::MAX,
            replayable(*board),
            snapshot@.moves == i,
            snapshot@.pushes <= snapshot@.moves,
            pos_safe(snapshot@.robot),
            replay_from(*board, initial_view(*board), dirs, 0) == replay_from(
                *board,
                snapshot@,
                dirs,
                i as nat,
            ),
    {
        proof {
            lemma_safe_step(*board, snapshot@, dirs[i as int]);
        }
        let transition = step_snapshot(board, &snapshot, directions[i]);
        if !transition.moved {
            return Err(ReplayError::BlockedAt { index: i });
        }
        snapshot = transition.snapshot;
    }
    Ok(snapshot)
}

/// Decoding keeps one direction per character.
pub proof fn lemma_decode_len(cs: Seq<char>, i: nat)
    requires
        i <= cs.len(),
    ensures
        decode_from(cs, i) matches Ok(d) ==> d.len() == cs.len() - i,
    decreases cs.len() - i,
{
    if i < cs.len() {
        lemma_decode_len(cs, i + 1);
    }
}

/// A step from a safe robot position with room in the counters is defined, and
/// after it the robot is again at a safe position and the counters advance.
pub proof fn lemma_safe_step(board: ParsedBoard, s: SnapshotView, dir: Direction)
    requires
        pos_safe(s.robot),
        s.moves < u32::MAX,
        s.pushes <= s.moves,
    ensures
        step_defined(board, s, dir),
        step_view(board, s, dir).moved ==> {
            let n = step_view(board, s, dir).snapshot;
            &&& pos_safe(n.robot)
            &&& n.moves == s.moves + 1
            &&& n.pushes <= n.moves
        },
{
    let target = spec_offset(s.robot, dir);
    if !spec_is_wall(board, target) {
        assert(in_bounds(board, target));
    }
}

/// Decoding what was encoded gives back the directions.
pub proof fn lemma_encode_decode(dirs: Seq<Direction>)
    ensures
        decode_spec(encode_spec(dirs)) == Ok::<Seq<Direction>, (nat, char)>(dirs),
{
    let cs = encode_spec(dirs);
    assert forall|k: int| 0 <= k < cs.len() implies spec_from_char(cs[k]) == Some(#[trigger] dirs[k]) by {
        crate::position::lemma_char_roundtrip(dirs[k]);
    }
    lemma_decode_ok(cs, dirs, 0);
    assert(dirs.skip(0) =~= dirs);
}

/// The upper-case form of a direction letter.
pub open spec fn upper_direction_char(c: char) -> char {
    if c == 'u' {
        'U'
    } else if c == 'd' {
        'D'
    } else if c == 'l' {
        'L'
    } else if c == 'r' {
        'R'
    } else {
        c
    }
}

/// Encoding a decoded log gives the log in upper case.
pub proof fn lemma_decode_encode(cs: Seq<char>)
    requires
        decode_spec(cs) is Ok,
    ensures
        encode_spec(decode_spec(cs)->Ok_0) == cs.map_values(|c: char| upper_direction_char(c)),
{
    lemma_decode_valid_from(cs, 0);
    lemma_decode_len(cs, 0);
    let d = decode_spec(cs)->Ok_0;
    assert(encode_spec(d) =~= cs.map_values(|c: char| upper_direction_char(c)));
}

proof fn lemma_decode_valid_from(cs: Seq<char>, i: nat)
    requires
        i <= cs.len(),
        decode_from(cs, i) is Ok,
    ensures
        forall|k: int|
            0 <= k < cs.len() - i ==> spec_from_char(cs[i + k]) == Some(
                #[trigger] (decode_from(cs, i)->Ok_0)[k],
            ),
    decreases cs.len() - i,
{
    if i < cs.len() {
        lemma_decode_valid_from(cs, i + 1);
        lemma_decode_len(cs, i + 1);
        lemma_decode_len(cs, i);
        let rest = decode_from(cs, i + 1)->Ok_0;
        let d = decode_from(cs, i)->Ok_0;
        assert forall|k: int| 0 <= k < cs.len() - i implies spec_from_char(cs[i + k]) == Some(
            #[trigger] d[k],
        ) by {
            if k > 0 {
                assert(d[k] == rest[k - 1]);
                assert(cs[i + k] == cs[(i + 1) + (k - 1)]);
            }
        }
    }
}

} // verus!
