use vstd::prelude::*;

use crate::board::ParsedBoard;
use crate::game::{create_snapshot, initial_view, step_snapshot, step_view, SnapshotView};
use crate::position::Direction;
use crate::replay::{lemma_safe_step, pos_safe, replayable};

verus! {

/// Why a solution failed verification.
#[derive(Debug, PartialEq, Eq, Structural)]
pub enum VerificationError {
    Blocked { step: usize },
    PushMismatch { step: usize, expected: bool, actual: bool },
    NotSolved,
}

/// Replaying the steps from index `i` on, starting in `s`: the final snapshot,
/// or the first error.
pub open spec fn verify_from(
    board: ParsedBoard,
    s: SnapshotView,
    steps: Seq<(Direction, bool)>,
    i: nat,
) -> Result<SnapshotView, VerificationError>
    decreases steps.len() - i,
{
    if i >= steps.len() {
        if s.solved {
            Ok(s)
        } else {
            Err(VerificationError::NotSolved)
        }
    } else {
        let t = step_view(board, s, steps[i as int].0);
        if !t.moved {
            Err(VerificationError::Blocked { step: i as usize })
        } else if t.pushed != steps[i as int].1 {
            Err(
                VerificationError::PushMismatch {
                    step: i as usize,
                    expected: steps[i as int].1,
                    actual: t.pushed,
                },
            )
        } else {
            verify_from(board, t.snapshot, steps, i + 1)
        }
    }
}

/// How many steps are marked as pushes.
pub open spec fn count_pushes(steps: Seq<(Direction, bool)>) -> nat
    decreases steps.len(),
{
    if steps.len() == 0 {
        0
    } else {
        count_pushes(steps.drop_last()) + if steps.last().1 {
            1nat
        } else {
            0nat
        }
    }
}

/// Verifies a solution by replaying it through the game rules.
/// Returns the move and push counts, or the step that failed.
pub fn verify_solution(board: &ParsedBoard, steps: &[(Direction, bool)]) -> (r: Result<
    (u32, u32),
    VerificationError,
>)
    requires
        replayable(*board),
        steps@.len() <= u32::MAX,
    ensures
        match verify_from(*board, initial_view(*board), steps@, 0) {
            Ok(v) => r == Ok::<(u32, u32), VerificationError>((v.moves, v.pushes)),
            Err(e) => r == Err::<(u32, u32), VerificationError>(e),
        },
        r matches Ok((m, p)) ==> m == steps@.len() && p == count_pushes(steps@),
{
    let mut snapshot = create_snapshot(board);
    let ghost ss = steps@;
    for i in 0..steps.len()
        invariant
            ss == steps@,
            ss.len() <= u32::MAX,
            replayable(*board),
            snapshot@.moves == i,
            snapshot@.pushes == count_pushes(ss.take(i as int)),
            snapshot@.pushes <= snapshot@.moves,
            pos_safe(snapshot@.robot),
            verify_from(*board, initial_view(*board), ss, 0) == verify_from(
                *board,
                snapshot@,
                ss,
                i as nat,
            ),
    {
        let (dir, expected_push) = steps[i];
        proof {
            lemma_safe_step(*board, snapshot@, dir);
            lemma_count_pushes_le(ss.take(i as int));
        }
        let transition = step_snapshot(board, &snapshot, dir);
        if !transition.moved {
            return Err(VerificationError::Blocked { step: i });
        }
        if transition.pushed != expected_push {
            return Err(
                VerificationError::PushMismatch {
                    step: i,
                    expected: expected_push,
                    actual: transition.pushed,
                },
            );
        }
        proof {
            crate::game::lemma_step_frame(*board, snapshot@, dir);
            assert(ss.take(i + 1).drop_last() =~= ss.take(i as int));
        }
        snapshot = transition.snapshot;
    }
    assert(ss.take(ss.len() as int) =~= ss);
    if !snapshot.solved {
        return Err(VerificationError::NotSolved);
    }
    Ok((snapshot.moves, snapshot.pushes))
}

proof fn lemma_count_pushes_le(steps: Seq<(Direction, bool)>)
    ensures
        count_pushes(steps) <= steps.len(),
    decreases steps.len(),
{
    if steps.len() > 0 {
        lemma_count_pushes_le(steps.drop_last());
    }
}

} // verus!
