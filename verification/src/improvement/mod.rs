pub mod box_rescheduling;
pub mod bridge_astar;
pub mod move_window;
pub mod permutation_window;
pub mod push_bfs;
pub mod push_window;

use vstd::prelude::*;

use crate::compiled_board::{CompiledBoard, INVALID_CELL};
use crate::deadlock::DeadlockChecker;
use crate::planning::rooms::RoomMap;
use crate::dense_state::{copy_cells, initial_pairs};
use crate::graph::{least_hops, lemma_reachable_trans, reachable};
use crate::position::{spec_index, spec_opposite, Direction};
use crate::reachability::{has_cell, walks};
use crate::sorting::{lemma_pair_order_total, lemma_pairs_sort_unique, pair_order, pairs_sorted, sort_pairs};

verus! {

broadcast use vstd::std_specs::vec::group_vec_axioms;

/// Summary of improvements applied to a solution.
#[derive(Clone, Copy, Debug, Default, PartialEq, Eq, Structural)]
pub struct ImprovementReport {
    pub pushes_saved: u32,
    pub moves_saved: u32,
}

// A solution is improved as a sequence of pushes `(box index, direction)`,
// where the index names a box of the list of boxes sorted by `(cell, label)`
// before the push.

/// The cell next to `c` in direction `d`.
pub open spec fn ahead(cb: &CompiledBoard, c: int, d: Direction) -> u16 {
    cb.nbrs()[c]@[spec_index(d)]
}

/// The boxes after box `bi` moves onto the next cell in direction `d`,
/// sorted again.
pub open spec fn push_boxes(cb: &CompiledBoard, boxes: Seq<(u16, u8)>, bi: int, d: Direction) -> Seq<(u16, u8)> {
    boxes.update(bi, (ahead(cb, boxes[bi].0 as int, d), boxes[bi].1)).sort_by(pair_order())
}

/// The boxes after the pushes, each moving its box one cell, without checks.
pub open spec fn boxes_after(cb: &CompiledBoard, boxes: Seq<(u16, u8)>, pushes: Seq<(usize, Direction)>) -> Seq<(u16, u8)>
    decreases pushes.len(),
{
    if pushes.len() == 0 {
        boxes
    } else {
        push_boxes(cb, boxes_after(cb, boxes, pushes.drop_last()), pushes.last().0 as int, pushes.last().1)
    }
}

/// The keeper's cell after the pushes: the former cell of the box pushed
/// last, or `keeper` when there is no push.
pub open spec fn keeper_after(cb: &CompiledBoard, keeper: int, boxes: Seq<(u16, u8)>, pushes: Seq<(usize, Direction)>) -> int {
    if pushes.len() == 0 {
        keeper
    } else {
        boxes_after(cb, boxes, pushes.drop_last())[pushes.last().0 as int].0 as int
    }
}

/// The push moves a box of the list from a cell of the board onto a cell of
/// the board.
pub open spec fn move_ok(cb: &CompiledBoard, boxes: Seq<(u16, u8)>, p: (usize, Direction)) -> bool {
    &&& p.0 < boxes.len()
    &&& boxes[p.0 as int].0 < cb.cell_count
    &&& ahead(cb, boxes[p.0 as int].0 as int, p.1) < cb.cell_count
}

/// Every push, in turn, moves a box of the list from a cell of the board onto
/// a cell of the board.
pub open spec fn moves_ok(cb: &CompiledBoard, boxes: Seq<(u16, u8)>, pushes: Seq<(usize, Direction)>) -> bool
    decreases pushes.len(),
{
    pushes.len() == 0 || (moves_ok(cb, boxes, pushes.drop_last()) && move_ok(
        cb,
        boxes_after(cb, boxes, pushes.drop_last()),
        pushes.last(),
    ))
}

/// The push is legal with the keeper on `keeper`: the cell ahead of the box
/// is a free cell, and the cell behind it is a free cell the keeper can walk
/// to.
pub open spec fn legal_move(cb: &CompiledBoard, keeper: int, boxes: Seq<(u16, u8)>, p: (usize, Direction)) -> bool {
    let cell = boxes[p.0 as int].0 as int;
    let target = ahead(cb, cell, p.1) as int;
    let from = ahead(cb, cell, spec_opposite(p.1)) as int;
    &&& p.0 < boxes.len()
    &&& cell < cb.cell_count
    &&& target != INVALID_CELL
    &&& !has_cell(boxes, target)
    &&& from != INVALID_CELL
    &&& !has_cell(boxes, from)
    &&& keeper != INVALID_CELL
    &&& reachable(walks(cb.nbrs(), boxes), keeper, from)
}

/// Every push, in turn, is legal.
pub open spec fn legal_sequence(cb: &CompiledBoard, keeper: int, boxes: Seq<(u16, u8)>, pushes: Seq<(usize, Direction)>) -> bool
    decreases pushes.len(),
{
    pushes.len() == 0 || (legal_sequence(cb, keeper, boxes, pushes.drop_last()) && legal_move(
        cb,
        keeper_after(cb, keeper, boxes, pushes.drop_last()),
        boxes_after(cb, boxes, pushes.drop_last()),
        pushes.last(),
    ))
}

/// Every box stands on a cell of the board.
pub open spec fn on_board(cb: &CompiledBoard, boxes: Seq<(u16, u8)>) -> bool {
    forall|i: int| 0 <= i < boxes.len() ==> (#[trigger] boxes[i]).0 < cb.cell_count
}

/// The boxes at the start, sorted.
pub open spec fn start_boxes(cb: &CompiledBoard) -> Seq<(u16, u8)> {
    initial_pairs(cb).sort_by(pair_order())
}

/// Every push, in turn, moves a box of the list that stands on a cell of the
/// board (the cell it moves onto may lie off the board).
pub open spec fn in_range(cb: &CompiledBoard, boxes: Seq<(u16, u8)>, pushes: Seq<(usize, Direction)>) -> bool
    decreases pushes.len(),
{
    pushes.len() == 0 || (in_range(cb, boxes, pushes.drop_last()) && {
        let before = boxes_after(cb, boxes, pushes.drop_last());
        &&& pushes.last().0 < before.len()
        &&& before[pushes.last().0 as int].0 < cb.cell_count
    })
}

/// Every push, in turn, that names a box of the list moves one that stands
/// on a cell of the board.
pub open spec fn walk_cells_ok(cb: &CompiledBoard, boxes: Seq<(u16, u8)>, pushes: Seq<(usize, Direction)>) -> bool
    decreases pushes.len(),
{
    pushes.len() == 0 || (walk_cells_ok(cb, boxes, pushes.drop_last()) && {
        let before = boxes_after(cb, boxes, pushes.drop_last());
        pushes.last().0 < before.len() ==> before[pushes.last().0 as int].0 < cb.cell_count
    })
}

/// The length of a shortest walk of the keeper from `s` to `t` among the
/// boxes, or `None` when there is none.
pub open spec fn walk_steps(cb: &CompiledBoard, boxes: Seq<(u16, u8)>, s: int, t: int) -> Option<int> {
    if s == t {
        Some(0)
    } else if s != INVALID_CELL && t != INVALID_CELL && reachable(walks(cb.nbrs(), boxes), s, t) {
        Some(least_hops(walks(cb.nbrs(), boxes), s, t) as int)
    } else {
        None
    }
}

/// The moves of the pushes from the keeper on `keeper`: for every push, the
/// shortest walk to the cell behind the box and the push itself. `None` when
/// a push names no box, has no cell behind its box, or that cell cannot be
/// walked to. The pushes are not otherwise checked.
pub open spec fn walk_cost(cb: &CompiledBoard, keeper: int, boxes: Seq<(u16, u8)>, pushes: Seq<(usize, Direction)>) -> Option<int>
    decreases pushes.len(),
{
    if pushes.len() == 0 {
        Some(0)
    } else {
        let q = pushes.drop_last();
        match walk_cost(cb, keeper, boxes, q) {
            None => None,
            Some(c) => {
                let before = boxes_after(cb, boxes, q);
                let k = keeper_after(cb, keeper, boxes, q);
                let bi = pushes.last().0 as int;
                if bi >= before.len() {
                    None
                } else {
                    let from = ahead(cb, before[bi].0 as int, spec_opposite(pushes.last().1)) as int;
                    if from == INVALID_CELL {
                        None
                    } else {
                        match walk_steps(cb, before, k, from) {
                            Some(w) => Some(c + w + 1),
                            None => None,
                        }
                    }
                }
            }
        }
    }
}

/// A cost as a number: `u32::MAX` stands for none.
pub open spec fn cost_value(c: Option<int>) -> int {
    match c {
        Some(v) => v,
        None => u32::MAX as int,
    }
}

/// Fine pushes stay in range, and walk over boxes on the board.
pub proof fn lemma_moves_in_range(cb: &CompiledBoard, boxes: Seq<(u16, u8)>, pushes: Seq<(usize, Direction)>)
    requires
        moves_ok(cb, boxes, pushes),
        on_board(cb, boxes),
    ensures
        in_range(cb, boxes, pushes),
        walk_cells_ok(cb, boxes, pushes),
    decreases pushes.len(),
{
    if pushes.len() > 0 {
        lemma_moves_in_range(cb, boxes, pushes.drop_last());
    }
}

/// A prefix of fine pushes is fine.
pub proof fn lemma_prefix_ok(cb: &CompiledBoard, boxes: Seq<(u16, u8)>, pushes: Seq<(usize, Direction)>, i: int)
    requires
        0 <= i <= pushes.len(),
    ensures
        moves_ok(cb, boxes, pushes) ==> moves_ok(cb, boxes, pushes.take(i)),
        in_range(cb, boxes, pushes) ==> in_range(cb, boxes, pushes.take(i)),
        walk_cells_ok(cb, boxes, pushes) ==> walk_cells_ok(cb, boxes, pushes.take(i)),
    decreases pushes.len() - i,
{
    if i < pushes.len() {
        lemma_prefix_ok(cb, boxes, pushes, i + 1);
        assert(pushes.take(i + 1).drop_last() =~= pushes.take(i));
        if i + 1 == pushes.len() {
            assert(pushes.take(i + 1) =~= pushes);
        }
    } else {
        assert(pushes.take(i) =~= pushes);
    }
}

/// Replacing a window of fine pushes by pushes that are fine from the same
/// boxes and end on the same boxes keeps the sequence fine, and its final
/// boxes.
pub proof fn lemma_splice(
    cb: &CompiledBoard,
    start: Seq<(u16, u8)>,
    pushes: Seq<(usize, Direction)>,
    offset: int,
    len: int,
    alt: Seq<(usize, Direction)>,
)
    requires
        0 <= offset,
        0 <= len,
        offset + len <= pushes.len(),
        moves_ok(cb, start, pushes),
        moves_ok(cb, boxes_after(cb, start, pushes.take(offset)), alt),
        boxes_after(cb, boxes_after(cb, start, pushes.take(offset)), alt) == boxes_after(cb, start, pushes.take(offset + len)),
    ensures
        moves_ok(cb, start, pushes.take(offset) + alt + pushes.skip(offset + len)),
        boxes_after(cb, start, pushes.take(offset) + alt + pushes.skip(offset + len)) == boxes_after(cb, start, pushes),
{
    let pre = pushes.take(offset);
    let mid = pushes.take(offset + len);
    let rest = pushes.skip(offset + len);
    assert(pushes =~= mid + rest);
    lemma_boxes_after_concat(cb, start, mid, rest);
    lemma_prefix_ok(cb, start, pushes, offset);
    lemma_boxes_after_concat(cb, start, pre + alt, rest);
    lemma_boxes_after_concat(cb, start, pre, alt);
}

/// No push is legal without a keeper.
pub proof fn lemma_legal_needs_keeper(cb: &CompiledBoard, keeper: int, boxes: Seq<(u16, u8)>, pushes: Seq<(usize, Direction)>)
    requires
        legal_sequence(cb, keeper, boxes, pushes),
        keeper == INVALID_CELL,
    ensures
        pushes.len() == 0,
    decreases pushes.len(),
{
    if pushes.len() > 0 {
        lemma_legal_needs_keeper(cb, keeper, boxes, pushes.drop_last());
    }
}

/// Once the walk cost of a prefix is none, so is that of every longer
/// prefix.
pub proof fn lemma_cost_none_extends(
    cb: &CompiledBoard,
    keeper: int,
    boxes: Seq<(u16, u8)>,
    pushes: Seq<(usize, Direction)>,
    i: int,
    j: int,
)
    requires
        0 <= i <= j <= pushes.len(),
        walk_cost(cb, keeper, boxes, pushes.take(i)) is None,
    ensures
        walk_cost(cb, keeper, boxes, pushes.take(j)) is None,
    decreases j - i,
{
    if i < j {
        lemma_cost_none_extends(cb, keeper, boxes, pushes, i, j - 1);
        assert(pushes.take(j).drop_last() =~= pushes.take(j - 1));
    }
}

/// The pushes, with the window of `len` pushes at `offset` replaced by `alt`.
pub fn splice_pushes(pushes: &mut Vec<(usize, Direction)>, offset: usize, len: usize, alt: &Vec<(usize, Direction)>)
    requires
        offset + len <= old(pushes)@.len(),
    ensures
        final(pushes)@ == old(pushes)@.take(offset as int) + alt@ + old(pushes)@.skip(offset + len),
{
    let ghost target = pushes@.take(offset as int) + alt@ + pushes@.skip(offset + len);
    let mut out: Vec<(usize, Direction)> = Vec::new();
    let mut i: usize = 0;
    while i < offset
        invariant
            i <= offset,
            offset + len <= pushes@.len(),
            out@ == pushes@.take(i as int),
        decreases offset - i,
    {
        out.push(pushes[i]);
        proof {
            assert(pushes@.take(i + 1) =~= pushes@.take(i as int).push(pushes@[i as int]));
        }
        i += 1;
    }
    let mut j: usize = 0;
    while j < alt.len()
        invariant
            j <= alt@.len(),
            offset + len <= pushes@.len(),
            out@ == pushes@.take(offset as int) + alt@.take(j as int),
        decreases alt@.len() - j,
    {
        out.push(alt[j]);
        proof {
            assert(alt@.take(j + 1) =~= alt@.take(j as int).push(alt@[j as int]));
            assert(pushes@.take(offset as int) + alt@.take(j + 1) =~= (pushes@.take(offset as int) + alt@.take(
                j as int,
            )).push(alt@[j as int]));
        }
        j += 1;
    }
    proof {
        assert(alt@.take(j as int) =~= alt@);
    }
    let n = pushes.len();
    let mut k: usize = offset + len;
    while k < n
        invariant
            n == pushes@.len(),
            offset + len <= k <= pushes@.len(),
            out@ == pushes@.take(offset as int) + alt@ + pushes@.subrange(offset + len, k as int),
        decreases pushes@.len() - k,
    {
        out.push(pushes[k]);
        proof {
            assert(pushes@.subrange(offset + len, k + 1) =~= pushes@.subrange(offset + len, k as int).push(pushes@[k as int]));
            assert(pushes@.take(offset as int) + alt@ + pushes@.subrange(offset + len, k + 1) =~= (pushes@.take(offset as int)
                + alt@ + pushes@.subrange(offset + len, k as int)).push(pushes@[k as int]));
        }
        k += 1;
    }
    proof {
        assert(pushes@.subrange(offset + len, k as int) =~= pushes@.skip(offset + len));
        assert(out@ =~= target);
    }
    *pushes = out;
}

/// The pushes from `lo` up to `hi`.
pub fn copy_window(pushes: &Vec<(usize, Direction)>, lo: usize, hi: usize) -> (w: Vec<(usize, Direction)>)
    requires
        lo <= hi <= pushes@.len(),
    ensures
        w@ == pushes@.subrange(lo as int, hi as int),
{
    let mut w: Vec<(usize, Direction)> = Vec::new();
    let mut i: usize = lo;
    while i < hi
        invariant
            lo <= i <= hi <= pushes@.len(),
            w@ == pushes@.subrange(lo as int, i as int),
        decreases hi - i,
    {
        w.push(pushes[i]);
        proof {
            assert(pushes@.subrange(lo as int, i + 1) =~= pushes@.subrange(lo as int, i as int).push(pushes@[i as int]));
        }
        i += 1;
    }
    w
}

/// Pushing one box keeps the number of boxes, and the list sorted.
pub proof fn lemma_push_boxes(cb: &CompiledBoard, boxes: Seq<(u16, u8)>, bi: int, d: Direction)
    requires
        0 <= bi < boxes.len(),
    ensures
        push_boxes(cb, boxes, bi, d).len() == boxes.len(),
        pairs_sorted(push_boxes(cb, boxes, bi, d)),
        push_boxes(cb, boxes, bi, d).to_multiset() == boxes.update(bi, (ahead(cb, boxes[bi].0 as int, d), boxes[bi].1)).to_multiset(),
{
    let moved = boxes.update(bi, (ahead(cb, boxes[bi].0 as int, d), boxes[bi].1));
    lemma_pair_order_total();
    moved.lemma_sort_by_ensures(pair_order());
    let t = moved.sort_by(pair_order());
    vstd::seq_lib::to_multiset_len(moved);
    vstd::seq_lib::to_multiset_len(t);
    assert forall|i: int, j: int| 0 <= i <= j < t.len() implies crate::sorting::pair_le(#[trigger] t[i], #[trigger] t[j]) by {
        if i < j {
            assert((pair_order())(t[i], t[j]));
        }
    }
}

/// Pushing one box onto a cell of the board keeps every box on the board.
pub proof fn lemma_push_on_board(cb: &CompiledBoard, boxes: Seq<(u16, u8)>, bi: int, d: Direction)
    requires
        on_board(cb, boxes),
        0 <= bi < boxes.len(),
        ahead(cb, boxes[bi].0 as int, d) < cb.cell_count,
    ensures
        on_board(cb, push_boxes(cb, boxes, bi, d)),
{
    lemma_push_boxes(cb, boxes, bi, d);
    let moved = boxes.update(bi, (ahead(cb, boxes[bi].0 as int, d), boxes[bi].1));
    let after = push_boxes(cb, boxes, bi, d);
    assert forall|i: int| 0 <= i < after.len() implies (#[trigger] after[i]).0 < cb.cell_count by {
        let x = after[i];
        vstd::seq_lib::to_multiset_contains(after, x);
        assert(after.contains(x));
        vstd::seq_lib::to_multiset_contains(moved, x);
        let j = choose|j: int| 0 <= j < moved.len() && moved[j] == x;
        if j != bi {
            assert(moved[j] == boxes[j]);
        }
    }
}

/// The boxes after pushes that are all fine stand on the board.
pub proof fn lemma_moves_on_board(cb: &CompiledBoard, boxes: Seq<(u16, u8)>, pushes: Seq<(usize, Direction)>)
    requires
        on_board(cb, boxes),
        moves_ok(cb, boxes, pushes),
    ensures
        on_board(cb, boxes_after(cb, boxes, pushes)),
        boxes_after(cb, boxes, pushes).len() == boxes.len(),
        pushes.len() > 0 ==> pairs_sorted(boxes_after(cb, boxes, pushes)),
    decreases pushes.len(),
{
    if pushes.len() > 0 {
        let q = pushes.drop_last();
        lemma_moves_on_board(cb, boxes, q);
        let before = boxes_after(cb, boxes, q);
        let bi = pushes.last().0 as int;
        let d = pushes.last().1;
        lemma_push_boxes(cb, before, bi, d);
        let moved = before.update(bi, (ahead(cb, before[bi].0 as int, d), before[bi].1));
        let after = push_boxes(cb, before, bi, d);
        assert forall|i: int| 0 <= i < after.len() implies (#[trigger] after[i]).0 < cb.cell_count by {
            let x = after[i];
            vstd::seq_lib::to_multiset_contains(after, x);
            assert(after.contains(x));
            vstd::seq_lib::to_multiset_contains(moved, x);
            let j = choose|j: int| 0 <= j < moved.len() && moved[j] == x;
            if j != bi {
                assert(moved[j] == before[j]);
            }
        }
    }
}

/// Running two push sequences one after the other moves the boxes as their
/// concatenation does.
pub proof fn lemma_boxes_after_concat(
    cb: &CompiledBoard,
    boxes: Seq<(u16, u8)>,
    p: Seq<(usize, Direction)>,
    q: Seq<(usize, Direction)>,
)
    ensures
        boxes_after(cb, boxes, p + q) == boxes_after(cb, boxes_after(cb, boxes, p), q),
        moves_ok(cb, boxes, p + q) == (moves_ok(cb, boxes, p) && moves_ok(cb, boxes_after(cb, boxes, p), q)),
    decreases q.len(),
{
    if q.len() == 0 {
        assert(p + q =~= p);
    } else {
        lemma_boxes_after_concat(cb, boxes, p, q.drop_last());
        assert((p + q).drop_last() =~= p + q.drop_last());
        assert((p + q).last() == q.last());
    }
}

/// A legal sequence moves boxes from cells of the board onto cells of the
/// board.
pub proof fn lemma_legal_moves_ok(cb: &CompiledBoard, keeper: int, boxes: Seq<(u16, u8)>, pushes: Seq<(usize, Direction)>)
    requires
        cb.wf(),
        legal_sequence(cb, keeper, boxes, pushes),
    ensures
        moves_ok(cb, boxes, pushes),
    decreases pushes.len(),
{
    if pushes.len() > 0 {
        cb.lemma_wf();
        lemma_legal_moves_ok(cb, keeper, boxes, pushes.drop_last());
    }
}

/// A sequence legal for a keeper on `zone` is legal for a keeper that can
/// walk to `zone`.
pub proof fn lemma_legal_from_zone(
    cb: &CompiledBoard,
    zone: int,
    keeper: int,
    boxes: Seq<(u16, u8)>,
    pushes: Seq<(usize, Direction)>,
)
    requires
        legal_sequence(cb, zone, boxes, pushes),
        keeper != INVALID_CELL,
        reachable(walks(cb.nbrs(), boxes), keeper, zone),
    ensures
        legal_sequence(cb, keeper, boxes, pushes),
    decreases pushes.len(),
{
    if pushes.len() > 0 {
        lemma_legal_from_zone(cb, zone, keeper, boxes, pushes.drop_last());
        if pushes.len() == 1 {
            let cell = boxes[pushes[0].0 as int].0 as int;
            let from = ahead(cb, cell, spec_opposite(pushes[0].1)) as int;
            lemma_reachable_trans(walks(cb.nbrs(), boxes), keeper, zone, from);
        }
    }
}

/// The boxes after box `bi` moves onto `target`, sorted again.
pub fn moved_pairs(boxes: &Vec<(u16, u8)>, bi: usize, target: u16) -> (v: Vec<(u16, u8)>)
    requires
        bi < boxes@.len(),
    ensures
        v@ == boxes@.update(bi as int, (target, boxes@[bi as int].1)).sort_by(pair_order()),
        pairs_sorted(v@),
        v@.len() == boxes@.len(),
{
    let mut v = copy_cells(boxes);
    let label = boxes[bi].1;
    v.set(bi, (target, label));
    let ghost moved = v@;
    sort_pairs(&mut v);
    proof {
        lemma_pairs_sort_unique(v@, moved);
    }
    v
}

/// Moves box `bi` one cell in direction `d` and sorts the boxes again;
/// returns the former cell of the box.
pub fn apply_push(cb: &CompiledBoard, boxes: &mut Vec<(u16, u8)>, bi: usize, d: Direction) -> (from: u16)
    requires
        cb.wf(),
        bi < old(boxes)@.len(),
        old(boxes)@[bi as int].0 < cb.cell_count,
    ensures
        final(boxes)@ == push_boxes(cb, old(boxes)@, bi as int, d),
        from == old(boxes)@[bi as int].0,
{
    let cell = boxes[bi].0;
    let target = cb.neighbor(cell, d);
    let v = moved_pairs(boxes, bi, target);
    *boxes = v;
    cell
}

/// The boxes at the start, sorted.
pub fn sorted_start_boxes(cb: &CompiledBoard) -> (v: Vec<(u16, u8)>)
    ensures
        v@ == start_boxes(cb),
        pairs_sorted(v@),
        v@.len() == cb.initial_box_cells@.len(),
{
    let mut v: Vec<(u16, u8)> = Vec::new();
    let mut i: usize = 0;
    while i < cb.initial_box_cells.len()
        invariant
            i <= cb.initial_box_cells@.len(),
            v@ == initial_pairs(cb).take(i as int),
        decreases cb.initial_box_cells@.len() - i,
    {
        let (c, l) = cb.initial_box_cells[i];
        v.push((c, l.0));
        proof {
            assert(initial_pairs(cb).take(i + 1) =~= initial_pairs(cb).take(i as int).push((c, l.0)));
        }
        i += 1;
    }
    proof {
        assert(initial_pairs(cb).take(i as int) =~= initial_pairs(cb));
    }
    let ghost unsorted = v@;
    sort_pairs(&mut v);
    proof {
        lemma_pairs_sort_unique(v@, unsorted);
    }
    v
}

/// Fine pushes name boxes of the list.
pub proof fn lemma_moves_indices(cb: &CompiledBoard, boxes: Seq<(u16, u8)>, pushes: Seq<(usize, Direction)>)
    requires
        moves_ok(cb, boxes, pushes),
    ensures
        forall|i: int| 0 <= i < pushes.len() ==> (#[trigger] pushes[i]).0 < boxes.len(),
    decreases pushes.len(),
{
    if pushes.len() > 0 {
        let q = pushes.drop_last();
        lemma_moves_indices(cb, boxes, q);
        lemma_boxes_len(cb, boxes, q);
        assert forall|i: int| 0 <= i < pushes.len() implies (#[trigger] pushes[i]).0 < boxes.len() by {
            if i < q.len() {
                assert(pushes[i] == q[i]);
            }
        }
    }
}

/// Pushes that name boxes of the list keep the number of boxes.
pub proof fn lemma_boxes_len(cb: &CompiledBoard, boxes: Seq<(u16, u8)>, pushes: Seq<(usize, Direction)>)
    requires
        forall|i: int| 0 <= i < pushes.len() ==> (#[trigger] pushes[i]).0 < boxes.len(),
    ensures
        boxes_after(cb, boxes, pushes).len() == boxes.len(),
    decreases pushes.len(),
{
    if pushes.len() > 0 {
        let q = pushes.drop_last();
        assert forall|i: int| 0 <= i < q.len() implies (#[trigger] q[i]).0 < boxes.len() by {
            assert(q[i] == pushes[i]);
        }
        lemma_boxes_len(cb, boxes, q);
        lemma_push_boxes(cb, boxes_after(cb, boxes, q), pushes.last().0 as int, pushes.last().1);
    }
}

/// `x`, or `u32::MAX` when it is larger.
pub open spec fn saturated(x: int) -> int {
    if x > u32::MAX {
        u32::MAX as int
    } else {
        x
    }
}

/// The sequences after each pass, from `before` through `p1` (windows
/// solved again), `p2` (neighbouring boxes reordered) and `p3` (small
/// windows reordered) to `after` (doorway pieces solved again), in the
/// relations the passes keep.
pub open spec fn pass_chain(
    cb: &CompiledBoard,
    before: Seq<(usize, Direction)>,
    p1: Seq<(usize, Direction)>,
    p2: Seq<(usize, Direction)>,
    p3: Seq<(usize, Direction)>,
    after: Seq<(usize, Direction)>,
) -> bool {
    &&& p1.len() <= before.len()
    &&& p2.len() <= p1.len()
    &&& p1.len() < 2 ==> p2 == p1
    &&& p3.len() == p2.len()
    &&& p2.len() < 2 ==> p3 == p2
    &&& permutation_window::all_windows_optimal(cb, p2) ==> p3 == p2
    &&& after.len() <= p3.len()
}

/// What the passes save along the chain: pushes (fewer pushes from the
/// first pass, fewer keeper steps from the second, fewer pushes from the
/// last) and moves (fewer keeper steps from the third).
pub open spec fn pass_savings(
    cb: &CompiledBoard,
    before: Seq<(usize, Direction)>,
    p1: Seq<(usize, Direction)>,
    p2: Seq<(usize, Direction)>,
    p3: Seq<(usize, Direction)>,
    after: Seq<(usize, Direction)>,
) -> (int, int) {
    let keeper = cb.robot_cell as int;
    let a = box_rescheduling::saving(before.len() as int, p1.len() as int);
    let b = if p1.len() < 2 {
        0
    } else {
        box_rescheduling::saving(
            cost_value(walk_cost(cb, keeper, initial_pairs(cb), p1)),
            cost_value(walk_cost(cb, keeper, initial_pairs(cb), p2)),
        )
    };
    let c = if p2.len() < 2 {
        0
    } else {
        box_rescheduling::saving(
            cost_value(permutation_window::sim_cost(cb, keeper, initial_pairs(cb), p2)),
            cost_value(permutation_window::sim_cost(cb, keeper, initial_pairs(cb), p3)),
        )
    };
    (a + b + (p3.len() - after.len()), c)
}

/// Runs the passes that shorten a push sequence, in order: solving windows
/// again, reordering the pushes of neighbouring boxes, reordering small
/// windows, and, on a board with doorways, solving the pieces between
/// doorway crossings again. The pushes stay fine, end with the same boxes
/// and never grow in number; a window of the first pass that leaves the
/// boxes where they were makes them fewer. The report adds up what the
/// passes report, the counts stopping at `u32::MAX`.
pub fn improve_push_sequence(
    cb: &CompiledBoard,
    deadlocks: &DeadlockChecker,
    pushes: &mut Vec<(usize, Direction)>,
) -> (report: ImprovementReport)
    requires
        cb.wf(),
        deadlocks.wf(cb),
        pairs_sorted(initial_pairs(cb)),
        on_board(cb, initial_pairs(cb)),
        moves_ok(cb, start_boxes(cb), old(pushes)@),
        65535 * old(pushes)@.len() <= u32::MAX,
        cb.initial_box_cells@.len() + bridge_astar::MAX_SEGMENT_PUSHES <= u32::MAX,
    ensures
        moves_ok(cb, start_boxes(cb), final(pushes)@),
        boxes_after(cb, start_boxes(cb), final(pushes)@) == boxes_after(cb, start_boxes(cb), old(pushes)@),
        final(pushes)@.len() <= old(pushes)@.len(),
        push_window::has_idle_window(cb, old(pushes)@) ==> final(pushes)@.len() < old(pushes)@.len(),
        exists|p1: Seq<(usize, Direction)>, p2: Seq<(usize, Direction)>, p3: Seq<(usize, Direction)>|
            #[trigger] pass_chain(cb, old(pushes)@, p1, p2, p3, final(pushes)@) && report.pushes_saved == saturated(
                pass_savings(cb, old(pushes)@, p1, p2, p3, final(pushes)@).0,
            ) && report.moves_saved == saturated(pass_savings(cb, old(pushes)@, p1, p2, p3, final(pushes)@).1),
{
    proof {
        lemma_pairs_sort_unique(initial_pairs(cb), initial_pairs(cb));
    }
    let ghost p0 = pushes@;
    let mut report = ImprovementReport { pushes_saved: 0, moves_saved: 0 };
    let a = push_window::optimize_pushes(cb, deadlocks, pushes);
    let ghost p1 = pushes@;
    report.pushes_saved = report.pushes_saved.saturating_add(a);
    let b = box_rescheduling::reschedule_boxes(cb, deadlocks, pushes);
    let ghost p2 = pushes@;
    report.pushes_saved = report.pushes_saved.saturating_add(b);
    let c = permutation_window::optimize_permutations(cb, pushes);
    let ghost p3 = pushes@;
    report.moves_saved = report.moves_saved.saturating_add(c);
    proof {
        assert(p0.len() as u32 as int == p0.len());
        assert(p1.len() as u32 as int == p1.len());
    }
    let rooms = RoomMap::analyze(cb);
    if rooms.doorway_count > 0 {
        let d = bridge_astar::bridge_astar_improve(cb, deadlocks, &rooms, pushes);
        report.pushes_saved = report.pushes_saved.saturating_add(d);
    }
    proof {
        assert(pass_chain(cb, p0, p1, p2, p3, pushes@));
        assert(report.pushes_saved == saturated(pass_savings(cb, p0, p1, p2, p3, pushes@).0));
        assert(report.moves_saved == saturated(pass_savings(cb, p0, p1, p2, p3, pushes@).1));
    }
    report
}

} // verus!
