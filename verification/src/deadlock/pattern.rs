use vstd::prelude::*;

use crate::compiled_board::{CompiledBoard, INVALID_CELL};
use crate::position::Position;

verus! {

/// Boxes on cells `a` and `b` sit diagonally next to each other, the two
/// cells that complete their 2x2 square are walls, and not both boxes are on
/// goals of their labels.
pub open spec fn closed_diagonal(cb: &CompiledBoard, a: int, la: u8, b: int, lb: u8) -> bool {
    let pa = cb.floor()[a];
    let pb = cb.floor()[b];
    let dr = pb.row - pa.row;
    let dc = pb.col - pa.col;
    &&& dr == 1 || dr == -1
    &&& dc == 1 || dc == -1
    &&& cb.cell_at(Position { row: pa.row, col: pb.col }) == INVALID_CELL
    &&& cb.cell_at(Position { row: pb.row, col: pa.col }) == INVALID_CELL
    &&& !(cb.goal_at_cell(a) == Some(la) && cb.goal_at_cell(b) == Some(lb))
}

/// Two boxes of the list form a closed diagonal.
pub open spec fn has_closed_diagonal(cb: &CompiledBoard, boxes: Seq<(u16, u8)>) -> bool {
    exists|i: int, j: int|
        0 <= i < j < boxes.len() && closed_diagonal(
            cb,
            (#[trigger] boxes[i]).0 as int,
            boxes[i].1,
            (#[trigger] boxes[j]).0 as int,
            boxes[j].1,
        )
}

fn is_closed_diagonal(cb: &CompiledBoard, cell_a: u16, label_a: u8, cell_b: u16, label_b: u8) -> (r: bool)
    requires
        cb.wf(),
        cell_a < cb.cell_count,
        cell_b < cb.cell_count,
    ensures
        r == closed_diagonal(cb, cell_a as int, label_a, cell_b as int, label_b),
{
    proof {
        cb.lemma_wf();
    }
    let pos_a = cb.cell_to_pos(cell_a);
    let pos_b = cb.cell_to_pos(cell_b);
    let dr = pos_b.row - pos_a.row;
    let dc = pos_b.col - pos_a.col;
    if (dr != 1 && dr != -1) || (dc != 1 && dc != -1) {
        return false;
    }
    let connect1 = cb.pos_to_cell(Position::new(pos_a.row, pos_b.col));
    let connect2 = cb.pos_to_cell(Position::new(pos_b.row, pos_a.col));
    if connect1 != INVALID_CELL || connect2 != INVALID_CELL {
        return false;
    }
    let a_on_goal = cb.goal_matches(cell_a, label_a);
    let b_on_goal = cb.goal_matches(cell_b, label_b);
    !(a_on_goal && b_on_goal)
}

/// Whether two boxes form a closed diagonal: diagonally adjacent with walls
/// on both cells that complete their square, not both on goals of their
/// labels. Neither box can ever leave.
pub fn is_pattern_deadlock(cb: &CompiledBoard, box_cells: &[(u16, u8)]) -> (b: bool)
    requires
        cb.wf(),
        forall|i: int| 0 <= i < box_cells@.len() ==> (#[trigger] box_cells@[i]).0 < cb.cell_count,
    ensures
        b == has_closed_diagonal(cb, box_cells@),
{
    let ghost boxes = box_cells@;
    let mut i: usize = 0;
    while i < box_cells.len()
        invariant
            cb.wf(),
            boxes == box_cells@,
            forall|k: int| 0 <= k < boxes.len() ==> (#[trigger] boxes[k]).0 < cb.cell_count,
            i <= boxes.len(),
            forall|a: int, c: int|
                0 <= a < i && a < c < boxes.len() ==> !closed_diagonal(
                    cb,
                    (#[trigger] boxes[a]).0 as int,
                    boxes[a].1,
                    (#[trigger] boxes[c]).0 as int,
                    boxes[c].1,
                ),
        decreases boxes.len() - i,
    {
        let (cell_a, label_a) = box_cells[i];
        let mut j: usize = i + 1;
        while j < box_cells.len()
            invariant
                cb.wf(),
                boxes == box_cells@,
                forall|k: int| 0 <= k < boxes.len() ==> (#[trigger] boxes[k]).0 < cb.cell_count,
                i < boxes.len(),
                i + 1 <= j <= boxes.len(),
                cell_a == boxes[i as int].0,
                label_a == boxes[i as int].1,
                forall|c: int|
                    i < c < j ==> !closed_diagonal(
                        cb,
                        cell_a as int,
                        label_a,
                        (#[trigger] boxes[c]).0 as int,
                        boxes[c].1,
                    ),
            decreases boxes.len() - j,
        {
            let (cell_b, label_b) = box_cells[j];
            if is_closed_diagonal(cb, cell_a, label_a, cell_b, label_b) {
                proof {
                    assert(closed_diagonal(cb, boxes[i as int].0 as int, boxes[i as int].1, boxes[j as int].0 as int, boxes[j as int].1));
                }
                return true;
            }
            j += 1;
        }
        proof {
            assert forall|a: int, c: int|
                0 <= a < i + 1 && a < c < boxes.len() implies !closed_diagonal(
                    cb,
                    (#[trigger] boxes[a]).0 as int,
                    boxes[a].1,
                    (#[trigger] boxes[c]).0 as int,
                    boxes[c].1,
                ) by {
                if a == i {
                    assert(!closed_diagonal(cb, cell_a as int, label_a, boxes[c].0 as int, boxes[c].1));
                }
            }
        }
        i += 1;
    }
    false
}

/// Two boxes `i < j` of the list that sit diagonally next to each other,
/// with walls on both cells that complete their 2x2 square, make the list a
/// pattern deadlock as soon as one of them is off a goal of its label.
pub proof fn lemma_diagonal_off_goal_deadlocked(cb: &CompiledBoard, boxes: Seq<(u16, u8)>, i: int, j: int)
    requires
        0 <= i < j < boxes.len(),
        cb.floor()[boxes[j].0 as int].row - cb.floor()[boxes[i].0 as int].row == 1
            || cb.floor()[boxes[j].0 as int].row - cb.floor()[boxes[i].0 as int].row == -1,
        cb.floor()[boxes[j].0 as int].col - cb.floor()[boxes[i].0 as int].col == 1
            || cb.floor()[boxes[j].0 as int].col - cb.floor()[boxes[i].0 as int].col == -1,
        cb.cell_at(Position { row: cb.floor()[boxes[i].0 as int].row, col: cb.floor()[boxes[j].0 as int].col })
            == INVALID_CELL,
        cb.cell_at(Position { row: cb.floor()[boxes[j].0 as int].row, col: cb.floor()[boxes[i].0 as int].col })
            == INVALID_CELL,
        cb.goal_at_cell(boxes[i].0 as int) != Some(boxes[i].1) || cb.goal_at_cell(boxes[j].0 as int) != Some(
            boxes[j].1,
        ),
    ensures
        has_closed_diagonal(cb, boxes),
{
    assert(closed_diagonal(cb, boxes[i].0 as int, boxes[i].1, boxes[j].0 as int, boxes[j].1));
}

/// Two boxes that both stand on goals of their labels are never a pattern
/// deadlock on their own.
pub proof fn lemma_both_on_goals_not_deadlocked(cb: &CompiledBoard, a: (u16, u8), b: (u16, u8))
    requires
        cb.goal_at_cell(a.0 as int) == Some(a.1),
        cb.goal_at_cell(b.0 as int) == Some(b.1),
    ensures
        !has_closed_diagonal(cb, seq![a, b]),
{
    let boxes = seq![a, b];
    assert forall|i: int, j: int| 0 <= i < j < boxes.len() implies !closed_diagonal(
        cb,
        (#[trigger] boxes[i]).0 as int,
        boxes[i].1,
        (#[trigger] boxes[j]).0 as int,
        boxes[j].1,
    ) by {
        assert(i == 0 && j == 1);
    }
}

} // verus!
