use vstd::prelude::*;

use crate::topology::BoardTopology;

verus! {

/// Some box stands on a dead cell.
pub open spec fn on_dead_cell(dead: Seq<bool>, boxes: Seq<(u16, u8)>) -> bool {
    exists|i: int| 0 <= i < boxes.len() && dead[(#[trigger] boxes[i]).0 as int]
}

/// Whether some box stands on a dead cell of the topology.
pub fn is_static_deadlock(topo: &BoardTopology, box_cells: &[(u16, u8)]) -> (b: bool)
    requires
        forall|i: int| 0 <= i < box_cells@.len() ==> (#[trigger] box_cells@[i]).0 < topo.dead_cells@.len(),
    ensures
        b == on_dead_cell(topo.dead_cells@, box_cells@),
{
    let mut i: usize = 0;
    while i < box_cells.len()
        invariant
            i <= box_cells@.len(),
            forall|k: int| 0 <= k < box_cells@.len() ==> (#[trigger] box_cells@[k]).0 < topo.dead_cells@.len(),
            forall|k: int| 0 <= k < i ==> !topo.dead_cells@[(#[trigger] box_cells@[k]).0 as int],
        decreases box_cells@.len() - i,
    {
        let (cell, _) = box_cells[i];
        if topo.is_dead(cell) {
            return true;
        }
        i += 1;
    }
    false
}

} // verus!
