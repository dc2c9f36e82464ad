use vstd::prelude::*;

use crate::compiled_board::{CompiledBoard, INVALID_CELL};
use crate::position::Direction;

verus! {

/// The label of the first box listed on cell `c`, if any.
pub open spec fn box_label_at(boxes: Seq<(u16, u8)>, c: int) -> Option<u8>
    decreases boxes.len(),
{
    if boxes.len() == 0 {
        None
    } else if boxes[0].0 == c {
        Some(boxes[0].1)
    } else {
        box_label_at(boxes.drop_first(), c)
    }
}

/// The four cells of a 2x2 block are all boxes, and some of these boxes is
/// not on a goal of its label.
pub open spec fn block_jammed(cb: &CompiledBoard, boxes: Seq<(u16, u8)>, block: Seq<u16>) -> bool {
    &&& forall|k: int| 0 <= k < 4 ==> (#[trigger] box_label_at(boxes, block[k] as int)).is_some()
    &&& exists|k: int|
        0 <= k < 4 && cb.goal_at_cell(block[k] as int) != Some(
            (#[trigger] box_label_at(boxes, block[k] as int)).unwrap(),
        )
}

/// The cell one step from `c` in direction index `d` (`INVALID_CELL` from an
/// invalid cell).
pub open spec fn step_from(nb: Seq<[u16; 4]>, c: int, d: int) -> int {
    if c == INVALID_CELL {
        INVALID_CELL as int
    } else {
        nb[c]@[d] as int
    }
}

/// The 2x2 block with `cell` at the given corner, when all its cells exist:
/// the corner is reached by stepping `v` then `h` from `cell` and the block is
/// listed top-left, top-right, bottom-left, bottom-right.
pub open spec fn block_at(nb: Seq<[u16; 4]>, cell: int, which: int) -> Option<Seq<u16>> {
    let up = step_from(nb, cell, 0);
    let down = step_from(nb, cell, 1);
    let left = step_from(nb, cell, 2);
    let right = step_from(nb, cell, 3);
    if which == 0 {
        let down_right = step_from(nb, down, 3);
        if right != INVALID_CELL && down != INVALID_CELL && down_right != INVALID_CELL {
            Some(seq![cell as u16, right as u16, down as u16, down_right as u16])
        } else {
            None
        }
    } else if which == 1 {
        let down_left = step_from(nb, down, 2);
        if left != INVALID_CELL && down != INVALID_CELL && down_left != INVALID_CELL {
            Some(seq![left as u16, cell as u16, down_left as u16, down as u16])
        } else {
            None
        }
    } else if which == 2 {
        let up_right = step_from(nb, up, 3);
        if up != INVALID_CELL && right != INVALID_CELL && up_right != INVALID_CELL {
            Some(seq![up as u16, up_right as u16, cell as u16, right as u16])
        } else {
            None
        }
    } else {
        let up_left = step_from(nb, up, 2);
        if up != INVALID_CELL && left != INVALID_CELL && up_left != INVALID_CELL {
            Some(seq![up_left as u16, up as u16, left as u16, cell as u16])
        } else {
            None
        }
    }
}

/// Some 2x2 block with `cell` at a corner is jammed.
pub open spec fn jammed_at(cb: &CompiledBoard, boxes: Seq<(u16, u8)>, cell: int) -> bool {
    exists|which: int|
        0 <= which < 4 && (#[trigger] block_at(cb.nbrs(), cell, which)) is Some && block_jammed(
            cb,
            boxes,
            block_at(cb.nbrs(), cell, which)->0,
        )
}

/// The boxes stand on cells of the board.
pub open spec fn boxes_on_board(cb: &CompiledBoard, boxes: Seq<(u16, u8)>) -> bool {
    forall|i: int| 0 <= i < boxes.len() ==> (#[trigger] boxes[i]).0 < cb.cell_count
}

/// Some box is a corner of a jammed 2x2 block.
pub open spec fn jammed_somewhere(cb: &CompiledBoard, boxes: Seq<(u16, u8)>) -> bool {
    exists|i: int| 0 <= i < boxes.len() && jammed_at(cb, boxes, (#[trigger] boxes[i]).0 as int)
}

/// The label of the first box on `cell`, if any.
fn find_box_label(box_cells: &[(u16, u8)], cell: u16) -> (l: Option<u8>)
    ensures
        l == box_label_at(box_cells@, cell as int),
{
    let mut i: usize = 0;
    proof {
        assert(box_cells@.skip(0) =~= box_cells@);
    }
    while i < box_cells.len()
        invariant
            i <= box_cells@.len(),
            box_label_at(box_cells@, cell as int) == box_label_at(box_cells@.skip(i as int), cell as int),
        decreases box_cells@.len() - i,
    {
        proof {
            assert(box_cells@.skip(i as int).drop_first() =~= box_cells@.skip(i + 1));
        }
        if box_cells[i].0 == cell {
            return Some(box_cells[i].1);
        }
        i += 1;
    }
    None
}

/// Whether the four cells of `block` are all boxes with at least one box
/// off a goal of its label.
fn is_blocked_2x2(cb: &CompiledBoard, box_cells: &[(u16, u8)], block: [u16; 4]) -> (b: bool)
    requires
        cb.wf(),
        forall|k: int| 0 <= k < 4 ==> (#[trigger] block@[k]) < cb.cell_count,
    ensures
        b == block_jammed(cb, box_cells@, block@),
{
    let mut any_box_off_goal = false;
    let mut k: usize = 0;
    while k < 4
        invariant
            cb.wf(),
            forall|j: int| 0 <= j < 4 ==> (#[trigger] block@[j]) < cb.cell_count,
            k <= 4,
            forall|j: int| 0 <= j < k ==> (#[trigger] box_label_at(box_cells@, block@[j] as int)).is_some(),
            any_box_off_goal == exists|j: int|
                0 <= j < k && cb.goal_at_cell(block@[j] as int) != Some(
                    (#[trigger] box_label_at(box_cells@, block@[j] as int)).unwrap(),
                ),
        decreases 4 - k,
    {
        let cell = block[k];
        match find_box_label(box_cells, cell) {
            Some(label) => {
                if !cb.goal_matches(cell, label) {
                    any_box_off_goal = true;
                }
            },
            None => {
                return false;
            },
        }
        k += 1;
    }
    any_box_off_goal
}

/// Whether one of the four 2x2 blocks with `cell` at a corner is jammed.
fn check_2x2_at(cb: &CompiledBoard, box_cells: &[(u16, u8)], cell: u16) -> (b: bool)
    requires
        cb.wf(),
        cell < cb.cell_count,
    ensures
        b == jammed_at(cb, box_cells@, cell as int),
{
    proof {
        cb.lemma_wf();
    }
    let ghost nb = cb.nbrs();
    let ghost boxes = box_cells@;
    let right = cb.neighbor(cell, Direction::Right);
    let down = cb.neighbor(cell, Direction::Down);
    let left = cb.neighbor(cell, Direction::Left);
    let up = cb.neighbor(cell, Direction::Up);

    let mut found = false;
    if right != INVALID_CELL && down != INVALID_CELL {
        let down_right = cb.neighbor(down, Direction::Right);
        if down_right != INVALID_CELL && is_blocked_2x2(cb, box_cells, [cell, right, down, down_right]) {
            found = true;
        }
    }
    if !found && left != INVALID_CELL && down != INVALID_CELL {
        let down_left = cb.neighbor(down, Direction::Left);
        if down_left != INVALID_CELL && is_blocked_2x2(cb, box_cells, [left, cell, down_left, down]) {
            found = true;
        }
    }
    if !found && up != INVALID_CELL && right != INVALID_CELL {
        let up_right = cb.neighbor(up, Direction::Right);
        if up_right != INVALID_CELL && is_blocked_2x2(cb, box_cells, [up, up_right, cell, right]) {
            found = true;
        }
    }
    if !found && up != INVALID_CELL && left != INVALID_CELL {
        let up_left = cb.neighbor(up, Direction::Left);
        if up_left != INVALID_CELL && is_blocked_2x2(cb, box_cells, [up_left, up, left, cell]) {
            found = true;
        }
    }
    proof {
        assert(nb[cell as int]@[3] == right && nb[cell as int]@[1] == down);
        assert(nb[cell as int]@[2] == left && nb[cell as int]@[0] == up);
        if found {
            if block_at(nb, cell as int, 0) is Some && block_jammed(cb, boxes, block_at(nb, cell as int, 0)->0) {
                assert(jammed_at(cb, boxes, cell as int));
            } else if block_at(nb, cell as int, 1) is Some && block_jammed(cb, boxes, block_at(nb, cell as int, 1)->0) {
                assert(jammed_at(cb, boxes, cell as int));
            } else if block_at(nb, cell as int, 2) is Some && block_jammed(cb, boxes, block_at(nb, cell as int, 2)->0) {
                assert(jammed_at(cb, boxes, cell as int));
            } else {
                assert(block_at(nb, cell as int, 3) is Some && block_jammed(cb, boxes, block_at(nb, cell as int, 3)->0));
                assert(jammed_at(cb, boxes, cell as int));
            }
        } else {
            assert forall|which: int| 0 <= which < 4 && (#[trigger] block_at(nb, cell as int, which)) is Some implies !block_jammed(
                cb,
                boxes,
                block_at(nb, cell as int, which)->0,
            ) by {}
        }
    }
    found
}

/// Whether some box is part of a 2x2 block of boxes with at least one box
/// off a goal of its label.
pub fn is_two_by_two_deadlock(cb: &CompiledBoard, box_cells: &[(u16, u8)]) -> (b: bool)
    requires
        cb.wf(),
        boxes_on_board(cb, box_cells@),
    ensures
        b == jammed_somewhere(cb, box_cells@),
{
    let mut i: usize = 0;
    while i < box_cells.len()
        invariant
            cb.wf(),
            boxes_on_board(cb, box_cells@),
            i <= box_cells@.len(),
            forall|k: int| 0 <= k < i ==> !jammed_at(cb, box_cells@, (#[trigger] box_cells@[k]).0 as int),
        decreases box_cells@.len() - i,
    {
        let (cell, _) = box_cells[i];
        if check_2x2_at(cb, box_cells, cell) {
            return true;
        }
        i += 1;
    }
    false
}

} // verus!
