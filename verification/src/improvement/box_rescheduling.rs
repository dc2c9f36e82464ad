use vstd::prelude::*;

use crate::compiled_board::{CompiledBoard, INVALID_CELL};
use crate::deadlock::DeadlockChecker;
use crate::dense_state::{copy_cells, initial_pairs, lemma_pairs_sorted_cells};
use crate::graph::{lemma_least_hops, reachable, reaches_in};
use crate::improvement::push_bfs::search_pushes;
use crate::improvement::{
    apply_push, boxes_after, copy_window, cost_value, in_range, keeper_after, lemma_boxes_after_concat,
    lemma_cost_none_extends, lemma_legal_from_zone, lemma_legal_moves_ok, lemma_legal_needs_keeper,
    lemma_moves_in_range, lemma_moves_on_board, lemma_prefix_ok, lemma_push_boxes, lemma_splice, legal_sequence,
    moves_ok, on_board, sorted_start_boxes, splice_pushes, start_boxes, walk_cells_ok, walk_cost,
};
use crate::position::Direction;
use crate::reachability::{canonical_keeper, keeper_distance, sorted_cells, walks};
use crate::sorting::{lemma_pairs_sort_unique, pairs_sorted};

verus! {

broadcast use vstd::std_specs::vec::group_vec_axioms;

/// The most pushes of two neighbouring runs that are searched for a better
/// order.
pub const MAX_SEGMENT: usize = 12;

/// The most states one search for a better order expands.
pub const MAX_EXPANDED: usize = 30000;

/// The most rounds of rescheduling; every round but the last replaces one
/// pair of runs by a cheaper order.
pub const MAX_ROUNDS: usize = 10000;

/// A maximal run of consecutive pushes of one box.
#[derive(Clone, Copy, Debug, PartialEq, Eq, Structural)]
pub struct Segment {
    pub start: usize,
    pub len: usize,
    pub box_index: usize,
}

/// `segs` cuts the pushes into maximal runs of one box: the runs are non-empty,
/// follow one another from the first push to the last, every push of a run
/// moves the run's box, and neighbouring runs move different boxes.
pub open spec fn segments_of(pushes: Seq<(usize, Direction)>, segs: Seq<Segment>) -> bool {
    &&& pushes.len() == 0 <==> segs.len() == 0
    &&& segs.len() > 0 ==> segs[0].start == 0
    &&& segs.len() > 0 ==> segs.last().start + segs.last().len == pushes.len()
    &&& forall|k: int| 0 <= k < segs.len() ==> (#[trigger] segs[k]).len >= 1
    &&& forall|k: int|
        0 <= k < segs.len() - 1 ==> (#[trigger] segs[k]).start + segs[k].len == segs[k + 1].start
    &&& forall|k: int, i: int|
        0 <= k < segs.len() && (#[trigger] segs[k]).start <= i < segs[k].start + segs[k].len
            ==> (#[trigger] pushes[i]).0 == segs[k].box_index
    &&& forall|k: int|
        0 <= k < segs.len() - 1 ==> (#[trigger] segs[k]).box_index != segs[k + 1].box_index
}

/// Splits a push sequence into maximal runs of pushes of one box.
pub fn identify_segments(pushes: &[(usize, Direction)]) -> (segs: Vec<Segment>)
    ensures
        segments_of(pushes@, segs@),
{
    let mut segments: Vec<Segment> = Vec::new();
    if pushes.len() == 0 {
        return segments;
    }
    let mut start: usize = 0;
    let mut current_box = pushes[0].0;
    let n = pushes.len();
    for i in 1..n
        invariant
            n == pushes@.len(),
            start < i,
            forall|t: int| start <= t < i ==> (#[trigger] pushes@[t]).0 == current_box,
            segments@.len() == 0 <==> start == 0,
            segments@.len() > 0 ==> segments@[0].start == 0,
            segments@.len() > 0 ==> segments@.last().start + segments@.last().len == start,
            segments@.len() > 0 ==> segments@.last().box_index != current_box,
            forall|k: int| 0 <= k < segments@.len() ==> (#[trigger] segments@[k]).len >= 1,
            forall|k: int|
                0 <= k < segments@.len() - 1 ==> (#[trigger] segments@[k]).start + segments@[k].len
                    == segments@[k + 1].start,
            forall|k: int, t: int|
                0 <= k < segments@.len() && (#[trigger] segments@[k]).start <= t < segments@[k].start
                    + segments@[k].len ==> (#[trigger] pushes@[t]).0 == segments@[k].box_index,
            forall|k: int|
                0 <= k < segments@.len() - 1 ==> (#[trigger] segments@[k]).box_index
                    != segments@[k + 1].box_index,
    {
        let bi = pushes[i].0;
        if bi != current_box {
            segments.push(Segment { start, len: i - start, box_index: current_box });
            start = i;
            current_box = bi;
        }
    }
    segments.push(Segment { start, len: n - start, box_index: current_box });
    segments
}

/// The keeper and the boxes part-way through a push sequence.
pub struct PartialState {
    pub keeper: u16,
    pub box_cells: Vec<(u16, u8)>,
}

/// The keeper and the boxes after the first `offset` pushes from the start,
/// the boxes moved without checks.
pub fn replay_to_offset(cb: &CompiledBoard, pushes: &[(usize, Direction)], offset: usize) -> (st: PartialState)
    requires
        cb.wf(),
        offset <= pushes@.len(),
        in_range(cb, start_boxes(cb), pushes@.take(offset as int)),
    ensures
        st.keeper == keeper_after(cb, cb.robot_cell as int, start_boxes(cb), pushes@.take(offset as int)),
        st.box_cells@ == boxes_after(cb, start_boxes(cb), pushes@.take(offset as int)),
        pairs_sorted(st.box_cells@),
{
    let ghost start = start_boxes(cb);
    let ghost window = pushes@.take(offset as int);
    let mut box_cells = sorted_start_boxes(cb);
    let mut keeper = cb.robot_cell;
    let mut i: usize = 0;
    proof {
        assert(window.take(0) =~= Seq::<(usize, Direction)>::empty());
    }
    while i < offset
        invariant
            cb.wf(),
            i <= offset <= pushes@.len(),
            start == start_boxes(cb),
            window == pushes@.take(offset as int),
            in_range(cb, start, window),
            keeper == keeper_after(cb, cb.robot_cell as int, start, window.take(i as int)),
            box_cells@ == boxes_after(cb, start, window.take(i as int)),
            pairs_sorted(box_cells@),
        decreases offset - i,
    {
        let (box_index, dir) = pushes[i];
        proof {
            lemma_prefix_ok(cb, start, window, i + 1);
            assert(window.take(i + 1).drop_last() =~= window.take(i as int));
            assert(window.take(i + 1).last() == (box_index, dir));
        }
        keeper = apply_push(cb, &mut box_cells, box_index, dir);
        proof {
            lemma_push_boxes(cb, boxes_after(cb, start, window.take(i as int)), box_index as int, dir);
        }
        i += 1;
    }
    proof {
        assert(window.take(offset as int) =~= window);
    }
    PartialState { keeper, box_cells }
}

/// The moves of pushing `segment` from `state`: for every push, the
/// keeper's shortest walk to the cell behind the box plus the push; `u32::MAX`
/// when a push names no box, has no cell behind its box, or that cell
/// cannot be walked to.
pub fn segment_walk_cost(cb: &CompiledBoard, state: &PartialState, segment: &[(usize, Direction)]) -> (cost: u32)
    requires
        cb.wf(),
        state.keeper < cb.cell_count || state.keeper == INVALID_CELL,
        sorted_cells(state.box_cells@),
        walk_cells_ok(cb, state.box_cells@, segment@),
        65535 * segment@.len() <= u32::MAX,
    ensures
        cost == cost_value(walk_cost(cb, state.keeper as int, state.box_cells@, segment@)),
{
    proof {
        cb.lemma_wf();
    }
    let ghost k0 = state.keeper as int;
    let ghost b0 = state.box_cells@;
    let ghost seg = segment@;
    let mut cost: u32 = 0;
    let mut keeper = state.keeper;
    let mut box_cells = copy_cells(&state.box_cells);
    let mut i: usize = 0;
    proof {
        assert(seg.take(0) =~= Seq::<(usize, Direction)>::empty());
    }
    while i < segment.len()
        invariant
            cb.wf(),
            crate::compiled_board::nbrs_ok(cb.nbrs(), cb.cell_count as int),
            k0 == state.keeper as int,
            b0 == state.box_cells@,
            seg == segment@,
            i <= seg.len(),
            walk_cells_ok(cb, b0, seg),
            65535 * seg.len() <= u32::MAX,
            keeper == keeper_after(cb, k0, b0, seg.take(i as int)),
            keeper < cb.cell_count || keeper == INVALID_CELL,
            box_cells@ == boxes_after(cb, b0, seg.take(i as int)),
            sorted_cells(box_cells@),
            walk_cost(cb, k0, b0, seg.take(i as int)) == Some(cost as int),
            cost <= 65535 * i,
        decreases seg.len() - i,
    {
        let (box_index, dir) = segment[i];
        let ghost p1 = seg.take(i + 1);
        proof {
            lemma_prefix_ok(cb, b0, seg, i + 1);
            assert(p1.drop_last() =~= seg.take(i as int));
            assert(p1.last() == (box_index, dir));
        }
        if box_index >= box_cells.len() {
            proof {
                lemma_cost_none_extends(cb, k0, b0, seg, i + 1, seg.len() as int);
                assert(seg.take(seg.len() as int) =~= seg);
            }
            return u32::MAX;
        }
        let box_cell = box_cells[box_index].0;
        let push_from = cb.neighbor(box_cell, dir.opposite());
        if push_from == INVALID_CELL {
            proof {
                lemma_cost_none_extends(cb, k0, b0, seg, i + 1, seg.len() as int);
                assert(seg.take(seg.len() as int) =~= seg);
            }
            return u32::MAX;
        }
        let dist = keeper_distance(cb, keeper, push_from, &box_cells);
        let ghost step = walks(cb.nbrs(), box_cells@);
        match dist {
            Some(d) => {
                proof {
                    if keeper != push_from {
                        assert(reachable(step, keeper as int, push_from as int)) by {
                            assert(reaches_in(step, keeper as int, push_from as int, d as nat));
                        }
                        lemma_least_hops(step, keeper as int, push_from as int, d as nat);
                    }
                    assert(65535 * i + 65535 <= 65535 * seg.len()) by (nonlinear_arith)
                        requires
                            i < seg.len(),
                    ;
                }
                cost = cost + d + 1;
            },
            None => {
                proof {
                    lemma_cost_none_extends(cb, k0, b0, seg, i + 1, seg.len() as int);
                    assert(seg.take(seg.len() as int) =~= seg);
                }
                return u32::MAX;
            },
        }
        keeper = apply_push(cb, &mut box_cells, box_index, dir);
        proof {
            lemma_push_boxes(cb, boxes_after(cb, b0, seg.take(i as int)), box_index as int, dir);
            lemma_pairs_sorted_cells(box_cells@);
        }
        i += 1;
    }
    proof {
        assert(seg.take(i as int) =~= seg);
    }
    cost
}

/// The moves of the whole push sequence from the start, with the boxes in
/// the order the board lists them; `u32::MAX` when a push fails.
pub fn total_walk_cost(cb: &CompiledBoard, pushes: &[(usize, Direction)]) -> (cost: u32)
    requires
        cb.wf(),
        sorted_cells(initial_pairs(cb)),
        walk_cells_ok(cb, initial_pairs(cb), pushes@),
        65535 * pushes@.len() <= u32::MAX,
    ensures
        cost == cost_value(walk_cost(cb, cb.robot_cell as int, initial_pairs(cb), pushes@)),
{
    proof {
        cb.lemma_wf();
    }
    let mut box_cells: Vec<(u16, u8)> = Vec::new();
    let mut i: usize = 0;
    while i < cb.initial_box_cells.len()
        invariant
            i <= cb.initial_box_cells@.len(),
            box_cells@ == initial_pairs(cb).take(i as int),
        decreases cb.initial_box_cells@.len() - i,
    {
        let (c, l) = cb.initial_box_cells[i];
        box_cells.push((c, l.0));
        proof {
            assert(initial_pairs(cb).take(i + 1) =~= initial_pairs(cb).take(i as int).push((c, l.0)));
        }
        i += 1;
    }
    proof {
        assert(initial_pairs(cb).take(i as int) =~= initial_pairs(cb));
    }
    let state = PartialState { keeper: cb.robot_cell, box_cells };
    segment_walk_cost(cb, &state, pushes)
}

/// A different order of the pushes `original` from `pre` that ends on
/// `target_boxes`: the first found by a breadth-first search over legal
/// pushes of at most as many pushes, that passes over `original` itself;
/// `None` when the search finds none within its limit of expansions. Where
/// the boxes already are `target_boxes` and `original` is not empty, that is
/// the empty sequence.
pub fn try_swapped_order(
    cb: &CompiledBoard,
    deadlocks: &DeadlockChecker,
    pre: &PartialState,
    target_boxes: &[(u16, u8)],
    original: &[(usize, Direction)],
) -> (r: Option<Vec<(usize, Direction)>>)
    requires
        cb.wf(),
        deadlocks.wf(cb),
        pre.keeper < cb.cell_count || pre.keeper == INVALID_CELL,
        pairs_sorted(pre.box_cells@),
        on_board(cb, pre.box_cells@),
    ensures
        r matches Some(p) ==> {
            &&& p@.len() <= original@.len()
            &&& p@ != original@
            &&& legal_sequence(cb, pre.keeper as int, pre.box_cells@, p@)
            &&& boxes_after(cb, pre.box_cells@, p@) == target_boxes@
        },
        pre.box_cells@ == target_boxes@ && original@.len() > 0 ==> (r matches Some(p) && p@.len() == 0),
{
    proof {
        lemma_pairs_sorted_cells(pre.box_cells@);
    }
    let keeper_zone = canonical_keeper(cb, pre.keeper, &pre.box_cells);
    let r = search_pushes(cb, deadlocks, keeper_zone, &pre.box_cells, target_boxes, original.len(), MAX_EXPANDED, Some(original));
    proof {
        if r is Some {
            let p = r->0@;
            if pre.keeper != INVALID_CELL {
                lemma_legal_from_zone(cb, keeper_zone as int, pre.keeper as int, pre.box_cells@, p);
            } else {
                lemma_legal_needs_keeper(cb, keeper_zone as int, pre.box_cells@, p);
            }
        }
    }
    r
}

/// The saving from cost `before` to cost `after`, or 0 when there is none.
pub open spec fn saving(before: int, after: int) -> int {
    if before > after {
        before - after
    } else {
        0
    }
}

/// `after` is `before` with its `len` pushes at `offset` replaced by a
/// different legal sequence, no longer, that ends with the same boxes and
/// walks the keeper less.
pub open spec fn window_reordered(
    cb: &CompiledBoard,
    before: Seq<(usize, Direction)>,
    after: Seq<(usize, Direction)>,
    offset: int,
    len: int,
) -> bool {
    let start = start_boxes(cb);
    let keeper = keeper_after(cb, cb.robot_cell as int, start, before.take(offset));
    let boxes = boxes_after(cb, start, before.take(offset));
    let window = before.subrange(offset, offset + len);
    exists|alt: Seq<(usize, Direction)>|
        #[trigger] legal_sequence(cb, keeper, boxes, alt) && after == before.take(offset) + alt + before.skip(offset + len)
            && alt.len() <= len && alt != window && boxes_after(cb, boxes, alt) == boxes_after(cb, boxes, window)
            && cost_value(walk_cost(cb, keeper, boxes, alt)) < cost_value(walk_cost(cb, keeper, boxes, window))
}

/// The `len` pushes at `offset`, at least one, leave the boxes where they
/// were before them, and the keeper walks some way to make them.
pub open spec fn idle_span(cb: &CompiledBoard, pushes: Seq<(usize, Direction)>, offset: int, len: int) -> bool {
    let start = start_boxes(cb);
    let keeper = keeper_after(cb, cb.robot_cell as int, start, pushes.take(offset));
    let boxes = boxes_after(cb, start, pushes.take(offset));
    &&& len > 0
    &&& boxes == boxes_after(cb, start, pushes.take(offset + len))
    &&& cost_value(walk_cost(cb, keeper, boxes, pushes.subrange(offset, offset + len))) > 0
}

/// Searches a different order for the `len` pushes at `offset`, and puts it
/// in their place when its walk is shorter. Returns whether it did.
fn reorder_window(
    cb: &CompiledBoard,
    deadlocks: &DeadlockChecker,
    pushes: &mut Vec<(usize, Direction)>,
    offset: usize,
    len: usize,
) -> (changed: bool)
    requires
        cb.wf(),
        deadlocks.wf(cb),
        on_board(cb, start_boxes(cb)),
        pairs_sorted(start_boxes(cb)),
        moves_ok(cb, start_boxes(cb), old(pushes)@),
        offset + len <= old(pushes)@.len(),
        len <= MAX_SEGMENT,
    ensures
        moves_ok(cb, start_boxes(cb), final(pushes)@),
        boxes_after(cb, start_boxes(cb), final(pushes)@) == boxes_after(cb, start_boxes(cb), old(pushes)@),
        final(pushes)@.len() <= old(pushes)@.len(),
        !changed ==> final(pushes)@ == old(pushes)@,
        changed ==> window_reordered(cb, old(pushes)@, final(pushes)@, offset as int, len as int),
        idle_span(cb, old(pushes)@, offset as int, len as int) ==> changed && final(pushes)@.len() < old(pushes)@.len(),
{
    let ghost start = start_boxes(cb);
    let ghost p = pushes@;
    let _n = pushes.len();
    proof {
        cb.lemma_wf();
        lemma_prefix_ok(cb, start, p, offset as int);
        lemma_prefix_ok(cb, start, p, offset + len);
        lemma_moves_in_range(cb, start, p.take(offset as int));
        lemma_moves_in_range(cb, start, p.take(offset + len));
    }
    let pre_state = replay_to_offset(cb, pushes, offset);
    let post = replay_to_offset(cb, pushes, offset + len);
    let window = copy_window(pushes, offset, offset + len);
    let ghost pre_boxes = pre_state.box_cells@;
    proof {
        assert(p.take(offset + len) =~= p.take(offset as int) + window@);
        lemma_boxes_after_concat(cb, start, p.take(offset as int), window@);
        lemma_moves_on_board(cb, start, p.take(offset as int));
        lemma_moves_in_range(cb, pre_boxes, window@);
        lemma_pairs_sorted_cells(pre_boxes);
        if offset > 0 {
            assert(p.take(offset as int).drop_last().len() + 1 == offset);
        }
    }
    match try_swapped_order(cb, deadlocks, &pre_state, &post.box_cells, &window) {
        Some(alt) => {
            proof {
                lemma_legal_moves_ok(cb, pre_state.keeper as int, pre_boxes, alt@);
                lemma_moves_in_range(cb, pre_boxes, alt@);
            }
            let orig_cost = segment_walk_cost(cb, &pre_state, &window);
            let alt_cost = segment_walk_cost(cb, &pre_state, &alt);
            if alt_cost < orig_cost {
                proof {
                    lemma_splice(cb, start, p, offset as int, len as int, alt@);
                }
                splice_pushes(pushes, offset, len, &alt);
                proof {
                    assert(pushes@.len() == p.len() - len + alt@.len());
                    assert(legal_sequence(cb, pre_state.keeper as int, pre_boxes, alt@));
                    assert(window_reordered(cb, p, pushes@, offset as int, len as int));
                }
                return true;
            }
            false
        },
        None => false,
    }
}

/// The pushes open with a run of `a` pushes of one box and then a run of `b`
/// pushes of another.
pub open spec fn lead_runs(pushes: Seq<(usize, Direction)>, a: int, b: int) -> bool {
    &&& 1 <= a && 1 <= b && a + b <= pushes.len()
    &&& forall|i: int| 0 <= i < a ==> (#[trigger] pushes[i]).0 == pushes[0].0
    &&& forall|i: int| a <= i < a + b ==> (#[trigger] pushes[i]).0 == pushes[a].0
    &&& pushes[a].0 != pushes[0].0
    &&& a + b < pushes.len() ==> pushes[a + b].0 != pushes[a].0
}

/// The first two runs of the pushes, `MAX_SEGMENT` pushes at most together,
/// leave the boxes where they were and walk the keeper some way.
pub open spec fn idle_lead_runs(cb: &CompiledBoard, pushes: Seq<(usize, Direction)>) -> bool {
    exists|a: int, b: int| #[trigger] lead_runs(pushes, a, b) && a + b <= MAX_SEGMENT && idle_span(cb, pushes, 0, a + b)
}

/// The runs of pushes that open with runs of `a` and then `b` pushes start
/// with those two.
proof fn lemma_lead_segments(pushes: Seq<(usize, Direction)>, segs: Seq<Segment>, a: int, b: int)
    requires
        segments_of(pushes, segs),
        lead_runs(pushes, a, b),
    ensures
        segs.len() >= 2,
        segs[0].start == 0,
        segs[0].len == a,
        segs[1].len == b,
        segs[0].box_index != segs[1].box_index,
{
    let l = segs[0].len as int;
    assert(pushes[0].0 == segs[0].box_index);
    lemma_runs_within(pushes, segs, 0);
    if l < a {
        if segs.len() == 1 {
            assert(false);
        }
        assert(pushes[l].0 == segs[1].box_index);
        assert(pushes[l].0 == pushes[0].0);
    }
    if l > a {
        assert(pushes[a].0 == segs[0].box_index);
    }
    assert(l == a);
    if segs.len() == 1 {
        assert(false);
    }
    lemma_runs_within(pushes, segs, 1);
    let m = segs[1].len as int;
    assert(pushes[a].0 == segs[1].box_index);
    if m < b {
        if segs.len() == 2 {
            assert(false);
        }
        assert(pushes[a + m].0 == segs[2].box_index);
        assert(pushes[a + m].0 == pushes[a].0);
    }
    if m > b {
        assert(pushes[a + b].0 == segs[1].box_index);
    }
}

/// Reorders which box is pushed when, to save walking: for two neighbouring
/// runs of pushes of different boxes, at most `MAX_SEGMENT` pushes together,
/// a different order of those pushes that ends with the same boxes is
/// searched for, and taken when its walk is shorter; this repeats until a
/// round finds nothing (or `MAX_ROUNDS` rounds have passed). The pushes stay
/// fine, end with the same boxes, and never grow in number; where the first
/// two runs bring the boxes back to where they were, and the keeper walks to
/// make them, they are taken out. Returns the walk cost saved over the whole
/// sequence.
#[verifier::spinoff_prover]
#[verifier::rlimit(60)]
pub fn reschedule_boxes(cb: &CompiledBoard, deadlocks: &DeadlockChecker, pushes: &mut Vec<(usize, Direction)>) -> (saved: u32)
    requires
        cb.wf(),
        deadlocks.wf(cb),
        pairs_sorted(initial_pairs(cb)),
        on_board(cb, initial_pairs(cb)),
        moves_ok(cb, start_boxes(cb), old(pushes)@),
        65535 * old(pushes)@.len() <= u32::MAX,
    ensures
        moves_ok(cb, start_boxes(cb), final(pushes)@),
        boxes_after(cb, start_boxes(cb), final(pushes)@) == boxes_after(cb, start_boxes(cb), old(pushes)@),
        final(pushes)@.len() <= old(pushes)@.len(),
        old(pushes)@.len() < 2 ==> final(pushes)@ == old(pushes)@ && saved == 0,
        old(pushes)@.len() >= 2 ==> saved == saving(
            cost_value(walk_cost(cb, cb.robot_cell as int, initial_pairs(cb), old(pushes)@)),
            cost_value(walk_cost(cb, cb.robot_cell as int, initial_pairs(cb), final(pushes)@)),
        ),
        idle_lead_runs(cb, old(pushes)@) ==> final(pushes)@.len() < old(pushes)@.len(),
{
    if pushes.len() < 2 {
        return 0;
    }
    let ghost start = start_boxes(cb);
    let ghost orig = pushes@;
    let ghost lead = idle_lead_runs(cb, orig);
    let ghost (a0, b0) = choose|a: int, b: int|
        #[trigger] lead_runs(orig, a, b) && a + b <= MAX_SEGMENT && idle_span(cb, orig, 0, a + b);
    proof {
        lemma_pairs_sort_unique(initial_pairs(cb), initial_pairs(cb));
        lemma_pairs_sorted_cells(initial_pairs(cb));
        lemma_moves_in_range(cb, start, orig);
    }
    let initial_cost = total_walk_cost(cb, pushes);
    let mut improved = true;
    let mut rounds: usize = 0;
    while improved && rounds < MAX_ROUNDS
        invariant
            cb.wf(),
            deadlocks.wf(cb),
            start == start_boxes(cb),
            start == initial_pairs(cb),
            on_board(cb, start),
            pairs_sorted(start),
            moves_ok(cb, start, pushes@),
            boxes_after(cb, start, pushes@) == boxes_after(cb, start, orig),
            pushes@.len() <= orig.len(),
            65535 * orig.len() <= u32::MAX,
            rounds <= MAX_ROUNDS,
            lead == idle_lead_runs(cb, orig),
            lead ==> lead_runs(orig, a0, b0) && a0 + b0 <= MAX_SEGMENT && idle_span(cb, orig, 0, a0 + b0),
            rounds == 0 ==> pushes@ == orig && improved,
            rounds >= 1 && lead ==> pushes@.len() < orig.len(),
        ensures
            lead ==> pushes@.len() < orig.len(),
        decreases MAX_ROUNDS - rounds,
    {
        improved = false;
        rounds += 1;
        let segments = identify_segments(pushes);
        proof {
            if lead && pushes@ == orig {
                lemma_lead_segments(orig, segments@, a0, b0);
            }
        }
        if segments.len() < 2 {
            break;
        }
        let ghost round = pushes@;
        let mut si: usize = 0;
        while si + 1 < segments.len()
            invariant_except_break
                pushes@ == round,
                segments_of(round, segments@),
            invariant
                si < segments@.len(),
                cb.wf(),
                deadlocks.wf(cb),
                start == start_boxes(cb),
                on_board(cb, start),
                pairs_sorted(start),
                moves_ok(cb, start, pushes@),
                boxes_after(cb, start, pushes@) == boxes_after(cb, start, orig),
                pushes@.len() <= orig.len(),
                lead ==> lead_runs(orig, a0, b0) && a0 + b0 <= MAX_SEGMENT && idle_span(cb, orig, 0, a0 + b0),
                lead ==> pushes@.len() < orig.len() || (si == 0 && pushes@ == orig && segments@.len() >= 2
                    && segments@[0].start == 0 && segments@[0].len == a0 && segments@[1].len == b0
                    && segments@[0].box_index != segments@[1].box_index),
            ensures
                moves_ok(cb, start, pushes@),
                boxes_after(cb, start, pushes@) == boxes_after(cb, start, orig),
                pushes@.len() <= orig.len(),
                lead ==> pushes@.len() < orig.len(),
            decreases segments@.len() - si,
        {
            let seg_a = segments[si];
            let seg_b = segments[si + 1];
            if seg_a.box_index == seg_b.box_index {
                si += 1;
                continue;
            }
            if seg_a.len > MAX_SEGMENT || seg_b.len > MAX_SEGMENT - seg_a.len {
                si += 1;
                continue;
            }
            let combined_len = seg_a.len + seg_b.len;
            let offset = seg_a.start;
            proof {
                lemma_pair_within(round, segments@, si as int);
            }
            if reorder_window(cb, deadlocks, pushes, offset, combined_len) {
                improved = true;
                break;
            }
            si += 1;
        }
    }
    proof {
        lemma_moves_in_range(cb, start, pushes@);
    }
    let final_cost = total_walk_cost(cb, pushes);
    if initial_cost > final_cost {
        initial_cost - final_cost
    } else {
        0
    }
}

/// Two neighbouring runs lie within the pushes, one after the other.
proof fn lemma_pair_within(pushes: Seq<(usize, Direction)>, segs: Seq<Segment>, k: int)
    requires
        segments_of(pushes, segs),
        0 <= k < segs.len() - 1,
    ensures
        segs[k].start + segs[k].len == segs[k + 1].start,
        segs[k].start + segs[k].len + segs[k + 1].len <= pushes.len(),
{
    lemma_runs_within(pushes, segs, k + 1);
}

/// Neighbouring runs reach up to the start of the run `k`, which lies within
/// the pushes.
proof fn lemma_runs_within(pushes: Seq<(usize, Direction)>, segs: Seq<Segment>, k: int)
    requires
        segments_of(pushes, segs),
        0 <= k < segs.len(),
    ensures
        segs[k].start + segs[k].len <= pushes.len(),
    decreases segs.len() - k,
{
    if k < segs.len() - 1 {
        lemma_runs_within(pushes, segs, k + 1);
    }
}

} // verus!
