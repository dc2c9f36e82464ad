use vstd::prelude::*;

use crate::compiled_board::{CompiledBoard, INVALID_CELL};
use crate::deadlock::DeadlockChecker;
use crate::dense_state::{lemma_pairs_sorted_cells, DenseState};
use crate::graph::reachable;
use crate::improvement::box_rescheduling::{replay_to_offset, saving};
use crate::improvement::push_bfs::search_pushes;
use crate::improvement::{
    boxes_after, copy_window, in_range, keeper_after, lemma_legal_moves_ok, lemma_moves_in_range,
    lemma_moves_on_board, lemma_prefix_ok, lemma_splice, legal_sequence, moves_ok, on_board, splice_pushes,
    start_boxes,
};
use crate::position::Direction;
use crate::reachability::{canonical_keeper, walks};
use crate::sorting::pairs_sorted;

verus! {

broadcast use vstd::std_specs::vec::group_vec_axioms;

/// The most pushes of a window that is solved again.
pub const MAX_WINDOW: usize = 8;

/// The most states one search of a window expands.
pub const MAX_EXPANDED: usize = 50000;

/// The state after the pushes from the start, the boxes moved without
/// checks; the keeper's region is that of its cell, and the counts are 0.
pub fn replay_pushes(cb: &CompiledBoard, pushes: &[(usize, Direction)]) -> (st: DenseState)
    requires
        cb.wf(),
        in_range(cb, start_boxes(cb), pushes@),
    ensures
        st.keeper_cell == keeper_after(cb, cb.robot_cell as int, start_boxes(cb), pushes@),
        st.box_cells@ == boxes_after(cb, start_boxes(cb), pushes@),
        pairs_sorted(st.box_cells@),
        st.keeper_cell == INVALID_CELL ==> st.keeper_zone == INVALID_CELL,
        st.keeper_cell != INVALID_CELL ==> {
            &&& st.keeper_zone < cb.cell_count
            &&& reachable(walks(cb.nbrs(), st.box_cells@), st.keeper_cell as int, st.keeper_zone as int)
            &&& forall|x: int| 0 <= x < st.keeper_zone ==> !reachable(walks(cb.nbrs(), st.box_cells@), st.keeper_cell as int, x)
        },
        st.moves == 0,
        st.pushes == 0,
{
    proof {
        cb.lemma_wf();
        assert(pushes@.take(pushes@.len() as int) =~= pushes@);
    }
    let replayed = replay_to_offset(cb, pushes, pushes.len());
    let keeper = replayed.keeper;
    let box_cells = replayed.box_cells;
    proof {
        lemma_pairs_sorted_cells(box_cells@);
        if pushes@.len() > 0 {
            assert(pushes@.drop_last().len() + 1 == pushes@.len());
        }
    }
    let keeper_zone = canonical_keeper(cb, keeper, &box_cells);
    DenseState { keeper_cell: keeper, keeper_zone, box_cells, moves: 0, pushes: 0 }
}

/// A sequence of at most `max_pushes` legal pushes from `start` after which
/// the boxes are `target_boxes`: the first a breadth-first search finds, or
/// `None` when it finds none within its limit of expansions. Where the boxes
/// already are `target_boxes`, that is the empty sequence.
pub fn find_shorter_push_sequence(
    cb: &CompiledBoard,
    deadlocks: &DeadlockChecker,
    start: &DenseState,
    target_boxes: &[(u16, u8)],
    max_pushes: u32,
) -> (r: Option<Vec<(usize, Direction)>>)
    requires
        cb.wf(),
        deadlocks.wf(cb),
        start.keeper_zone < cb.cell_count || start.keeper_zone == INVALID_CELL,
        pairs_sorted(start.box_cells@),
        on_board(cb, start.box_cells@),
    ensures
        r matches Some(p) ==> {
            &&& p@.len() <= max_pushes
            &&& legal_sequence(cb, start.keeper_zone as int, start.box_cells@, p@)
            &&& boxes_after(cb, start.box_cells@, p@) == target_boxes@
        },
        start.box_cells@ == target_boxes@ ==> (r matches Some(p) && p@.len() == 0),
{
    search_pushes(cb, deadlocks, start.keeper_zone, &start.box_cells, target_boxes, max_pushes as usize, MAX_EXPANDED, None)
}

/// The window of `ws` pushes at `offset`, of 3 to `MAX_WINDOW` pushes,
/// leaves the boxes where they were before it.
pub open spec fn idle_window(cb: &CompiledBoard, pushes: Seq<(usize, Direction)>, offset: int, ws: int) -> bool {
    &&& 0 <= offset
    &&& 3 <= ws <= MAX_WINDOW
    &&& offset + ws <= pushes.len()
    &&& boxes_after(cb, start_boxes(cb), pushes.take(offset)) == boxes_after(
        cb,
        start_boxes(cb),
        pushes.take(offset + ws),
    )
}

/// Some window of 3 to `MAX_WINDOW` pushes leaves the boxes where they were.
pub open spec fn has_idle_window(cb: &CompiledBoard, pushes: Seq<(usize, Direction)>) -> bool {
    exists|offset: int, ws: int| #[trigger] idle_window(cb, pushes, offset, ws)
}

/// Tries to solve the window of `ws` pushes at `offset` again with fewer
/// pushes, and puts the shorter sequence in its place. Returns its length.
fn shorten_window(
    cb: &CompiledBoard,
    deadlocks: &DeadlockChecker,
    pushes: &mut Vec<(usize, Direction)>,
    offset: usize,
    ws: usize,
) -> (r: Option<usize>)
    requires
        cb.wf(),
        deadlocks.wf(cb),
        on_board(cb, start_boxes(cb)),
        moves_ok(cb, start_boxes(cb), old(pushes)@),
        offset + ws <= old(pushes)@.len(),
        3 <= ws <= MAX_WINDOW,
    ensures
        moves_ok(cb, start_boxes(cb), final(pushes)@),
        boxes_after(cb, start_boxes(cb), final(pushes)@) == boxes_after(cb, start_boxes(cb), old(pushes)@),
        r matches Some(k) ==> k < ws && final(pushes)@.len() == old(pushes)@.len() - ws + k,
        r is None ==> final(pushes)@ == old(pushes)@,
        idle_window(cb, old(pushes)@, offset as int, ws as int) ==> r is Some,
{
    let ghost start = start_boxes(cb);
    let ghost p = pushes@;
    let _n = pushes.len();
    let prefix = copy_window(pushes, 0, offset);
    let longer = copy_window(pushes, 0, offset + ws);
    proof {
        assert(prefix@ =~= p.take(offset as int));
        assert(longer@ =~= p.take(offset + ws));
        lemma_prefix_ok(cb, start, p, offset as int);
        lemma_prefix_ok(cb, start, p, offset + ws);
        lemma_moves_in_range(cb, start, prefix@);
        lemma_moves_in_range(cb, start, longer@);
        lemma_moves_on_board(cb, start, prefix@);
    }
    let pre_state = replay_pushes(cb, &prefix);
    let post_state = replay_pushes(cb, &longer);
    match find_shorter_push_sequence(cb, deadlocks, &pre_state, &post_state.box_cells, (ws - 1) as u32) {
        Some(shorter) => {
            let new_len = shorter.len();
            proof {
                lemma_legal_moves_ok(cb, pre_state.keeper_zone as int, pre_state.box_cells@, shorter@);
                lemma_splice(cb, start, p, offset as int, ws as int, shorter@);
            }
            splice_pushes(pushes, offset, ws, &shorter);
            Some(new_len)
        },
        None => None,
    }
}

/// Shortens a push sequence by solving windows of it again: for window sizes
/// from `MAX_WINDOW` (or the number of pushes) down to 3, and for every
/// offset, a sequence with fewer pushes from the state before the window to
/// the boxes after it is searched for and put in its place; rounds repeat
/// until one shortens nothing. The pushes stay fine and end with the same
/// boxes, and a window that leaves the boxes where they were is always
/// taken out, so where there is one the sequence gets shorter. Returns the
/// number of pushes saved.
pub fn optimize_pushes(cb: &CompiledBoard, deadlocks: &DeadlockChecker, pushes: &mut Vec<(usize, Direction)>) -> (saved: u32)
    requires
        cb.wf(),
        deadlocks.wf(cb),
        on_board(cb, start_boxes(cb)),
        moves_ok(cb, start_boxes(cb), old(pushes)@),
    ensures
        moves_ok(cb, start_boxes(cb), final(pushes)@),
        boxes_after(cb, start_boxes(cb), final(pushes)@) == boxes_after(cb, start_boxes(cb), old(pushes)@),
        final(pushes)@.len() <= old(pushes)@.len(),
        saved == saving(old(pushes)@.len() as u32 as int, final(pushes)@.len() as u32 as int),
        has_idle_window(cb, old(pushes)@) ==> final(pushes)@.len() < old(pushes)@.len(),
{
    let ghost start = start_boxes(cb);
    let ghost orig = pushes@;
    let initial_len = #[verifier::truncate] (pushes.len() as u32);
    let mut improved = true;
    while improved
        invariant
            cb.wf(),
            deadlocks.wf(cb),
            start == start_boxes(cb),
            on_board(cb, start),
            moves_ok(cb, start, pushes@),
            boxes_after(cb, start, pushes@) == boxes_after(cb, start, orig),
            pushes@.len() <= orig.len(),
            initial_len == orig.len() as u32,
            pushes@.len() < orig.len() || (pushes@ == orig && (improved || !has_idle_window(cb, orig))),
        decreases pushes@.len() + if improved {
            1int
        } else {
            0int
        },
    {
        improved = false;
        let ghost round_len = pushes@.len();
        let ghost round = pushes@;
        let upper = if pushes.len() < MAX_WINDOW {
            pushes.len()
        } else {
            MAX_WINDOW
        };
        let mut window_size = upper;
        while window_size >= 3
            invariant
                cb.wf(),
                deadlocks.wf(cb),
                start == start_boxes(cb),
                on_board(cb, start),
                moves_ok(cb, start, pushes@),
                boxes_after(cb, start, pushes@) == boxes_after(cb, start, orig),
                pushes@.len() <= round_len,
                round_len <= orig.len(),
                improved ==> pushes@.len() < round_len,
                window_size <= MAX_WINDOW,
                round_len == round.len(),
                upper <= MAX_WINDOW,
                upper <= round.len(),
                upper == MAX_WINDOW || upper == round.len(),
                window_size <= upper,
                !improved ==> pushes@ == round && forall|o: int, w: int|
                    window_size < w <= upper ==> !#[trigger] idle_window(cb, round, o, w),
            decreases window_size,
        {
            let mut offset: usize = 0;
            while window_size <= pushes.len() - offset
                invariant
                    cb.wf(),
                    deadlocks.wf(cb),
                    start == start_boxes(cb),
                    on_board(cb, start),
                    moves_ok(cb, start, pushes@),
                    boxes_after(cb, start, pushes@) == boxes_after(cb, start, orig),
                    pushes@.len() <= round_len,
                    round_len <= orig.len(),
                    improved ==> pushes@.len() < round_len,
                    3 <= window_size <= MAX_WINDOW,
                    offset <= pushes@.len(),
                    round_len == round.len(),
                    upper <= MAX_WINDOW,
                    upper <= round.len(),
                    upper == MAX_WINDOW || upper == round.len(),
                    window_size <= upper,
                    !improved ==> pushes@ == round && forall|o: int, w: int|
                        window_size < w <= upper ==> !#[trigger] idle_window(cb, round, o, w),
                    !improved ==> forall|o: int| 0 <= o < offset ==> !#[trigger] idle_window(cb, round, o, window_size as int),
                decreases pushes@.len() - offset,
            {
                match shorten_window(cb, deadlocks, pushes, offset, window_size) {
                    Some(new_len) => {
                        offset += new_len;
                        improved = true;
                    },
                    None => {
                        offset += 1;
                    },
                }
            }
            proof {
                if !improved {
                    assert forall|o: int, w: int| window_size - 1 < w <= upper implies !#[trigger] idle_window(
                        cb,
                        round,
                        o,
                        w,
                    ) by {
                        if w == window_size && idle_window(cb, round, o, w) {
                            assert(0 <= o < offset);
                        }
                    }
                }
            }
            window_size -= 1;
        }
        proof {
            if !improved {
                assert forall|o: int, w: int| !#[trigger] idle_window(cb, round, o, w) by {
                    if idle_window(cb, round, o, w) {
                        assert(window_size < w <= upper);
                    }
                }
            }
        }
    }
    let final_len = #[verifier::truncate] (pushes.len() as u32);
    if initial_len > final_len {
        initial_len - final_len
    } else {
        0
    }
}

} // verus!
