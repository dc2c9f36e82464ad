use vstd::prelude::*;

use crate::bits::{bit, lemma_bit_or, lemma_bit_zero};
use crate::compiled_board::{CompiledBoard, INVALID_CELL};
use crate::dense_state::DenseState;
use crate::position::{Direction, Position};

verus! {

broadcast use vstd::std_specs::vec::group_vec_axioms;

/// A box of label `label` at `cell` sits on a goal of its label.
pub open spec fn on_goal(cb: &CompiledBoard, cell: u16, label: u8) -> bool {
    cb.goal_at_cell(cell as int) == Some(label)
}

/// The reverse-push distance from goal `gi` to `cell`, `u32::MAX` where
/// the box cannot be brought to the goal.
pub open spec fn goal_dist(cb: &CompiledBoard, gi: int, cell: u16) -> int {
    let d = cb.push_dists(gi)[cell as int];
    if d == u16::MAX {
        u32::MAX as int
    } else {
        d as int
    }
}

/// The least goal distance from `cell` over the first `k` goals of label
/// `label`; `u32::MAX` when there is none.
pub open spec fn min_goal_dist(cb: &CompiledBoard, cell: u16, label: u8, k: int) -> int
    decreases k,
{
    if k <= 0 {
        u32::MAX as int
    } else {
        let prev = min_goal_dist(cb, cell, label, k - 1);
        if cb.goal_cells@[k - 1].1.0 == label && goal_dist(cb, k - 1, cell) < prev {
            goal_dist(cb, k - 1, cell)
        } else {
            prev
        }
    }
}

/// The least distance of a box to a goal of its label.
pub open spec fn box_dist(cb: &CompiledBoard, b: (u16, u8)) -> int {
    min_goal_dist(cb, b.0, b.1, cb.goal_cells@.len() as int)
}

/// `x`, or `u32::MAX` when it is larger.
pub open spec fn cap_u32(x: int) -> int {
    if x > u32::MAX {
        u32::MAX as int
    } else {
        x
    }
}

/// The distances of the first `k` boxes summed, or `None` when one of them
/// can reach no goal of its label.
pub open spec fn dist_sum(cb: &CompiledBoard, boxes: Seq<(u16, u8)>, k: int) -> Option<int>
    decreases k,
{
    if k <= 0 {
        Some(0)
    } else {
        match dist_sum(cb, boxes, k - 1) {
            None => None,
            Some(t) => if box_dist(cb, boxes[k - 1]) == u32::MAX {
                None
            } else {
                Some(t + box_dist(cb, boxes[k - 1]))
            },
        }
    }
}

/// The largest distance, below `u32::MAX`, of a box off its goals among the
/// first `k`; 0 when there is none.
pub open spec fn max_offgoal(cb: &CompiledBoard, boxes: Seq<(u16, u8)>, k: int) -> int
    decreases k,
{
    if k <= 0 {
        0
    } else {
        let prev = max_offgoal(cb, boxes, k - 1);
        let b = boxes[k - 1];
        if !on_goal(cb, b.0, b.1) && box_dist(cb, b) < u32::MAX && box_dist(cb, b) > prev {
            box_dist(cb, b)
        } else {
            prev
        }
    }
}

/// The distances of the first `k` boxes off their goals whose label is
/// among `targets`, summed, or `None` when one of them can reach no goal.
pub open spec fn target_sum(cb: &CompiledBoard, boxes: Seq<(u16, u8)>, targets: Seq<u8>, k: int) -> Option<int>
    decreases k,
{
    if k <= 0 {
        Some(0)
    } else {
        let b = boxes[k - 1];
        match target_sum(cb, boxes, targets, k - 1) {
            None => None,
            Some(t) => if !targets.contains(b.1) || on_goal(cb, b.0, b.1) {
                Some(t)
            } else if box_dist(cb, b) == u32::MAX {
                None
            } else {
                Some(t + box_dist(cb, b))
            },
        }
    }
}

/// The number of the first `k` boxes on a goal of their label.
pub open spec fn packed(cb: &CompiledBoard, boxes: Seq<(u16, u8)>, k: int) -> int
    decreases k,
{
    if k <= 0 {
        0
    } else {
        packed(cb, boxes, k - 1) + if on_goal(cb, boxes[k - 1].0, boxes[k - 1].1) {
            1int
        } else {
            0int
        }
    }
}

/// The number of the first `k` boxes with a label of their own (not 0) on a
/// goal of their label.
pub open spec fn typed_packed(cb: &CompiledBoard, boxes: Seq<(u16, u8)>, k: int) -> int
    decreases k,
{
    if k <= 0 {
        0
    } else {
        typed_packed(cb, boxes, k - 1) + if boxes[k - 1].1 != 0 && on_goal(cb, boxes[k - 1].0, boxes[k - 1].1) {
            1int
        } else {
            0int
        }
    }
}

/// Every box lies on a floor cell.
pub open spec fn boxes_on_floor(cb: &CompiledBoard, boxes: Seq<(u16, u8)>) -> bool {
    forall|i: int| 0 <= i < boxes.len() ==> (#[trigger] boxes[i]).0 < cb.cell_count
}

proof fn lemma_packed_le(cb: &CompiledBoard, boxes: Seq<(u16, u8)>, k: int)
    requires
        k >= 0,
    ensures
        0 <= typed_packed(cb, boxes, k) <= packed(cb, boxes, k) <= k,
    decreases k,
{
    if k > 0 {
        lemma_packed_le(cb, boxes, k - 1);
    }
}

/// The least distance from `cell` to a goal of label `label`; `u32::MAX`
/// when no such goal can receive the box.
pub fn min_push_distance_to_goal(cb: &CompiledBoard, cell: u16, label: u8) -> (d: u32)
    requires
        cb.wf(),
        cell < cb.cell_count,
    ensures
        d == min_goal_dist(cb, cell, label, cb.goal_cells@.len() as int),
{
    let mut best: u32 = u32::MAX;
    let mut gi: usize = 0;
    while gi < cb.goal_cells.len()
        invariant
            cb.wf(),
            cell < cb.cell_count,
            gi <= cb.goal_cells@.len(),
            best == min_goal_dist(cb, cell, label, gi as int),
        decreases cb.goal_cells@.len() - gi,
    {
        if cb.goal_cells[gi].1.0 == label {
            let d = cb.reverse_push_distance(gi, cell);
            let dd: u32 = if d == u16::MAX {
                u32::MAX
            } else {
                d as u32
            };
            if dd < best {
                best = dd;
            }
        }
        gi += 1;
    }
    best
}

/// The distances of the boxes to their nearest goals summed, at most
/// `u32::MAX`; `u32::MAX` when some box can reach no goal of its label.
pub fn sum_min_distances(cb: &CompiledBoard, box_cells: &[(u16, u8)]) -> (r: u32)
    requires
        cb.wf(),
        boxes_on_floor(cb, box_cells@),
    ensures
        r == match dist_sum(cb, box_cells@, box_cells@.len() as int) {
            None => u32::MAX as int,
            Some(t) => cap_u32(t),
        },
{
    let mut total: u32 = 0;
    let mut i: usize = 0;
    while i < box_cells.len()
        invariant
            cb.wf(),
            boxes_on_floor(cb, box_cells@),
            i <= box_cells@.len(),
            dist_sum(cb, box_cells@, i as int) matches Some(t) && t >= 0 && total == cap_u32(t),
        decreases box_cells@.len() - i,
    {
        let (cell, label) = box_cells[i];
        let d = min_push_distance_to_goal(cb, cell, label);
        if d == u32::MAX {
            proof {
                lemma_dist_sum_none(cb, box_cells@, i + 1, box_cells@.len() as int);
            }
            return u32::MAX;
        }
        total = total.saturating_add(d);
        i += 1;
    }
    total
}

/// A failed distance sum stays failed for more boxes.
proof fn lemma_dist_sum_none(cb: &CompiledBoard, boxes: Seq<(u16, u8)>, k1: int, k2: int)
    requires
        0 <= k1 <= k2,
        dist_sum(cb, boxes, k1) is None,
    ensures
        dist_sum(cb, boxes, k2) is None,
    decreases k2 - k1,
{
    if k1 < k2 {
        lemma_dist_sum_none(cb, boxes, k1, k2 - 1);
    }
}

/// A failed target sum stays failed for more boxes.
proof fn lemma_target_sum_none(cb: &CompiledBoard, boxes: Seq<(u16, u8)>, targets: Seq<u8>, k1: int, k2: int)
    requires
        0 <= k1 <= k2,
        target_sum(cb, boxes, targets, k1) is None,
    ensures
        target_sum(cb, boxes, targets, k2) is None,
    decreases k2 - k1,
{
    if k1 < k2 {
        lemma_target_sum_none(cb, boxes, targets, k1, k2 - 1);
    }
}

/// The largest distance of a box off its goals to its nearest goal,
/// leaving out boxes that can reach none; 0 when there is none.
pub fn max_offgoal_distance(cb: &CompiledBoard, box_cells: &[(u16, u8)]) -> (r: u32)
    requires
        cb.wf(),
        boxes_on_floor(cb, box_cells@),
    ensures
        r == max_offgoal(cb, box_cells@, box_cells@.len() as int),
{
    let mut max_d: u32 = 0;
    let mut i: usize = 0;
    while i < box_cells.len()
        invariant
            cb.wf(),
            boxes_on_floor(cb, box_cells@),
            i <= box_cells@.len(),
            max_d == max_offgoal(cb, box_cells@, i as int),
        decreases box_cells@.len() - i,
    {
        let (cell, label) = box_cells[i];
        if !cb.goal_matches(cell, label) {
            let d = min_push_distance_to_goal(cb, cell, label);
            if d < u32::MAX && d > max_d {
                max_d = d;
            }
        }
        i += 1;
    }
    max_d
}

/// `x` occurs in `items`.
fn contains_label(items: &[u8], x: u8) -> (b: bool)
    ensures
        b == items@.contains(x),
{
    let mut i: usize = 0;
    while i < items.len()
        invariant
            i <= items@.len(),
            forall|j: int| 0 <= j < i ==> items@[j] != x,
        decreases items@.len() - i,
    {
        if items[i] == x {
            return true;
        }
        i += 1;
    }
    false
}

/// The distances to their nearest goals of the boxes off their goals whose
/// label is among `target_labels`, summed, at most `u32::MAX`; `u32::MAX`
/// when one of them can reach no goal; 0 when no label is targeted.
pub fn target_sum_distances(cb: &CompiledBoard, box_cells: &[(u16, u8)], target_labels: &[u8]) -> (r: u32)
    requires
        cb.wf(),
        boxes_on_floor(cb, box_cells@),
    ensures
        target_labels@.len() == 0 ==> r == 0,
        target_labels@.len() > 0 ==> r == match target_sum(cb, box_cells@, target_labels@, box_cells@.len() as int) {
            None => u32::MAX as int,
            Some(t) => cap_u32(t),
        },
{
    if target_labels.len() == 0 {
        return 0;
    }
    let mut total: u32 = 0;
    let mut i: usize = 0;
    while i < box_cells.len()
        invariant
            cb.wf(),
            boxes_on_floor(cb, box_cells@),
            i <= box_cells@.len(),
            target_sum(cb, box_cells@, target_labels@, i as int) matches Some(t) && t >= 0 && total == cap_u32(t),
        decreases box_cells@.len() - i,
    {
        let (cell, label) = box_cells[i];
        if contains_label(target_labels, label) && !cb.goal_matches(cell, label) {
            let d = min_push_distance_to_goal(cb, cell, label);
            if d == u32::MAX {
                proof {
                    lemma_target_sum_none(cb, box_cells@, target_labels@, i + 1, box_cells@.len() as int);
                }
                return u32::MAX;
            }
            total = total.saturating_add(d);
        }
        i += 1;
    }
    total
}

/// The number of boxes on a goal of their label.
pub fn goal_packing_count(cb: &CompiledBoard, box_cells: &[(u16, u8)]) -> (r: u32)
    requires
        cb.wf(),
        boxes_on_floor(cb, box_cells@),
        box_cells@.len() <= u32::MAX,
    ensures
        r == packed(cb, box_cells@, box_cells@.len() as int),
{
    let mut count: u32 = 0;
    let mut i: usize = 0;
    while i < box_cells.len()
        invariant
            cb.wf(),
            boxes_on_floor(cb, box_cells@),
            box_cells@.len() <= u32::MAX,
            i <= box_cells@.len(),
            count == packed(cb, box_cells@, i as int),
        decreases box_cells@.len() - i,
    {
        proof {
            lemma_packed_le(cb, box_cells@, i as int);
        }
        let (cell, label) = box_cells[i];
        if cb.goal_matches(cell, label) {
            count += 1;
        }
        i += 1;
    }
    count
}

/// The number of boxes with a label of their own on a goal of their label.
pub fn typed_packing_count(cb: &CompiledBoard, box_cells: &[(u16, u8)]) -> (r: u32)
    requires
        cb.wf(),
        boxes_on_floor(cb, box_cells@),
        box_cells@.len() <= u32::MAX,
    ensures
        r == typed_packed(cb, box_cells@, box_cells@.len() as int),
{
    let mut count: u32 = 0;
    let mut i: usize = 0;
    while i < box_cells.len()
        invariant
            cb.wf(),
            boxes_on_floor(cb, box_cells@),
            box_cells@.len() <= u32::MAX,
            i <= box_cells@.len(),
            count == typed_packed(cb, box_cells@, i as int),
        decreases box_cells@.len() - i,
    {
        proof {
            lemma_packed_le(cb, box_cells@, i as int);
        }
        let (cell, label) = box_cells[i];
        if label != 0 && cb.goal_matches(cell, label) {
            count += 1;
        }
        i += 1;
    }
    count
}

} // verus!
