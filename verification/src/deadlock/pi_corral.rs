use vstd::prelude::*;

use crate::compiled_board::{CompiledBoard, INVALID_CELL};
use crate::graph::reachable;
use crate::reachability::{contains_cell, has_cell, keeper_reachable, sorted_cells, walks};

verus! {

/// The box `i` is off a goal of its label and the keeper reaches none of the
/// free cells around it, so it can never be pushed.
pub open spec fn sealed_box(cb: &CompiledBoard, boxes: Seq<(u16, u8)>, keeper: int, i: int) -> bool {
    let cell = boxes[i].0 as int;
    &&& cb.goal_at_cell(cell) != Some(boxes[i].1)
    &&& forall|d: int|
        0 <= d < 4 ==> {
            let adj = #[trigger] cb.nbrs()[cell]@[d] as int;
            adj == INVALID_CELL || has_cell(boxes, adj) || !reachable(walks(cb.nbrs(), boxes), keeper, adj)
        }
}

/// Some box is sealed away from the keeper at `keeper`.
pub open spec fn sealed_somewhere(cb: &CompiledBoard, boxes: Seq<(u16, u8)>, keeper: int) -> bool {
    boxes.len() > 0 && keeper != INVALID_CELL && exists|i: int| 0 <= i < boxes.len() && #[trigger] sealed_box(cb, boxes, keeper, i)
}

/// Whether some box off its goals is sealed away from the keeper: every cell
/// next to it is a wall, a box, or out of the keeper's reach. `box_cells` is
/// sorted by cell.
pub fn is_pi_corral_deadlock(cb: &CompiledBoard, keeper_pos: u16, box_cells: &[(u16, u8)]) -> (b: bool)
    requires
        cb.wf(),
        keeper_pos < cb.cell_count || keeper_pos == INVALID_CELL,
        sorted_cells(box_cells@),
        forall|i: int| 0 <= i < box_cells@.len() ==> (#[trigger] box_cells@[i]).0 < cb.cell_count,
    ensures
        b == sealed_somewhere(cb, box_cells@, keeper_pos as int),
{
    if box_cells.len() == 0 || keeper_pos == INVALID_CELL {
        return false;
    }
    proof {
        cb.lemma_wf();
    }
    let ghost boxes = box_cells@;
    let ghost nb = cb.nbrs();
    let reach = keeper_reachable(cb, keeper_pos, box_cells);
    let mut i: usize = 0;
    while i < box_cells.len()
        invariant
            cb.wf(),
            boxes == box_cells@,
            nb == cb.nbrs(),
            crate::compiled_board::nbrs_ok(nb, cb.cell_count as int),
            sorted_cells(boxes),
            keeper_pos < cb.cell_count,
            forall|k: int| 0 <= k < boxes.len() ==> (#[trigger] boxes[k]).0 < cb.cell_count,
            reach@.len() == cb.cell_count,
            forall|c: int|
                0 <= c < cb.cell_count ==> #[trigger] reach@[c] == reachable(walks(nb, boxes), keeper_pos as int, c),
            i <= boxes.len(),
            forall|k: int| 0 <= k < i ==> !#[trigger] sealed_box(cb, boxes, keeper_pos as int, k),
        decreases boxes.len() - i,
    {
        let (box_cell, label) = box_cells[i];
        if !cb.goal_matches(box_cell, label) {
            let mut any_adjacent_reachable = false;
            let mut k: usize = 0;
            while k < 4
                invariant
                    cb.wf(),
                    boxes == box_cells@,
                    nb == cb.nbrs(),
                    crate::compiled_board::nbrs_ok(nb, cb.cell_count as int),
                    sorted_cells(boxes),
                    box_cell < cb.cell_count,
                    reach@.len() == cb.cell_count,
                    forall|c: int|
                        0 <= c < cb.cell_count ==> #[trigger] reach@[c] == reachable(walks(nb, boxes), keeper_pos as int, c),
                    k <= 4,
                    !any_adjacent_reachable ==> forall|d: int|
                        0 <= d < k ==> {
                            let adj = #[trigger] nb[box_cell as int]@[d] as int;
                            adj == INVALID_CELL || has_cell(boxes, adj) || !reachable(walks(nb, boxes), keeper_pos as int, adj)
                        },
                    any_adjacent_reachable ==> exists|d: int|
                        0 <= d < 4 && {
                            let adj = #[trigger] nb[box_cell as int]@[d] as int;
                            !(adj == INVALID_CELL || has_cell(boxes, adj) || !reachable(walks(nb, boxes), keeper_pos as int, adj))
                        },
                ensures
                    !any_adjacent_reachable ==> forall|d: int|
                        0 <= d < 4 ==> {
                            let adj = #[trigger] nb[box_cell as int]@[d] as int;
                            adj == INVALID_CELL || has_cell(boxes, adj) || !reachable(walks(nb, boxes), keeper_pos as int, adj)
                        },
                    any_adjacent_reachable ==> exists|d: int|
                        0 <= d < 4 && {
                            let adj = #[trigger] nb[box_cell as int]@[d] as int;
                            !(adj == INVALID_CELL || has_cell(boxes, adj) || !reachable(walks(nb, boxes), keeper_pos as int, adj))
                        },
                decreases 4 - k,
            {
                let dir = crate::compiled_board::direction_at(k);
                let adj = cb.neighbor(box_cell, dir);
                if adj != INVALID_CELL && !contains_cell(box_cells, adj) {
                    if reach[adj as usize] {
                        proof {
                            assert(nb[box_cell as int]@[k as int] == adj);
                        }
                        any_adjacent_reachable = true;
                        break;
                    }
                }
                k += 1;
            }
            if !any_adjacent_reachable {
                proof {
                    assert(sealed_box(cb, boxes, keeper_pos as int, i as int));
                }
                return true;
            }
        }
        i += 1;
    }
    false
}

} // verus!
