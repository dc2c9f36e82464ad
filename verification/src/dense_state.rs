use vstd::prelude::*;

use crate::compiled_board::{CompiledBoard, INVALID_CELL};
use crate::graph::reachable;
use crate::reachability::{canonical_keeper, sorted_cells, walks};
use crate::sorting::{pair_le, pairs_sorted, sort_pairs};
use crate::types::Label;

verus! {

/// Compact solver state: keeper position and box positions with labels.
///
/// `keeper_cell` is the exact keeper cell; `keeper_zone` the least cell of the
/// region the keeper can reach.
#[derive(Clone, Debug, PartialEq, Eq, Hash)]
pub struct DenseState {
    pub keeper_cell: u16,
    pub keeper_zone: u16,
    pub box_cells: Vec<(u16, u8)>,
    pub moves: u32,
    pub pushes: u32,
}

/// A copy of a list of box cells.
pub fn copy_cells(cells: &Vec<(u16, u8)>) -> (out: Vec<(u16, u8)>)
    ensures
        out@ == cells@,
{
    let mut out: Vec<(u16, u8)> = Vec::new();
    for i in 0..cells.len()
        invariant
            out@ == cells@.take(i as int),
    {
        out.push(cells[i]);
        assert(out@ =~= cells@.take(i + 1));
    }
    assert(cells@.take(cells@.len() as int) =~= cells@);
    out
}


/// The boxes of the compiled board as (cell, label group) pairs.
pub open spec fn initial_pairs(cb: &CompiledBoard) -> Seq<(u16, u8)> {
    cb.initial_box_cells@.map_values(|e: (u16, Label)| (e.0, e.1.0))
}

/// The state is consistent with the board: keeper cells are cells (or
/// `INVALID_CELL`), the boxes are sorted by cell and stand on cells.
pub open spec fn state_ok(cb: &CompiledBoard, s: DenseState) -> bool {
    &&& s.keeper_cell < cb.cell_count || s.keeper_cell == INVALID_CELL
    &&& s.keeper_zone < cb.cell_count || s.keeper_zone == INVALID_CELL
    &&& pairs_sorted(s.box_cells@)
    &&& forall|i: int| 0 <= i < s.box_cells@.len() ==> (#[trigger] s.box_cells@[i]).0 < cb.cell_count
}

/// Every box stands on a goal of its label group.
pub open spec fn solved(cb: &CompiledBoard, boxes: Seq<(u16, u8)>) -> bool {
    forall|i: int| 0 <= i < boxes.len() ==> cb.goal_at_cell((#[trigger] boxes[i]).0 as int) == Some(boxes[i].1)
}

/// Sorted by pairs implies sorted by cell.
pub proof fn lemma_pairs_sorted_cells(s: Seq<(u16, u8)>)
    requires
        pairs_sorted(s),
    ensures
        sorted_cells(s),
{
    assert forall|i: int, j: int| 0 <= i <= j < s.len() implies (#[trigger] s[i]).0 <= (#[trigger] s[j]).0 by {
        assert(pair_le(s[i], s[j]));
    }
}

impl DenseState {
    /// The initial state of the board: the robot's cell, the least cell of
    /// its region, the boxes sorted, no moves and no pushes.
    pub fn from_initial(cb: &CompiledBoard) -> (s: DenseState)
        requires
            cb.wf(),
        ensures
            s.keeper_cell == cb.robot_cell,
            pairs_sorted(s.box_cells@),
            s.box_cells@.to_multiset() == initial_pairs(cb).to_multiset(),
            s.box_cells@.len() == cb.initial_box_cells@.len(),
            cb.robot_cell == INVALID_CELL ==> s.keeper_zone == INVALID_CELL,
            cb.robot_cell != INVALID_CELL ==> {
                &&& s.keeper_zone < cb.cell_count
                &&& reachable(walks(cb.nbrs(), s.box_cells@), cb.robot_cell as int, s.keeper_zone as int)
                &&& forall|x: int| 0 <= x < s.keeper_zone ==> !reachable(walks(cb.nbrs(), s.box_cells@), cb.robot_cell as int, x)
            },
            s.moves == 0,
            s.pushes == 0,
    {
        proof {
            cb.lemma_wf();
        }
        let mut box_cells: Vec<(u16, u8)> = Vec::new();
        let mut i: usize = 0;
        while i < cb.initial_box_cells.len()
            invariant
                i <= cb.initial_box_cells@.len(),
                box_cells@ == initial_pairs(cb).take(i as int),
            decreases cb.initial_box_cells@.len() - i,
        {
            let (c, l) = cb.initial_box_cells[i];
            box_cells.push((c, l.0));
            proof {
                assert(initial_pairs(cb).take(i + 1) =~= initial_pairs(cb).take(i as int).push((c, l.0)));
            }
            i += 1;
        }
        proof {
            assert(initial_pairs(cb).take(cb.initial_box_cells@.len() as int) =~= initial_pairs(cb));
        }
        sort_pairs(&mut box_cells);
        proof {
            lemma_pairs_sorted_cells(box_cells@);
        }
        let keeper_cell = cb.robot_cell;
        let keeper_zone = canonical_keeper(cb, keeper_cell, &box_cells);
        DenseState { keeper_cell, keeper_zone, box_cells, moves: 0, pushes: 0 }
    }

    /// Whether every box stands on a goal of its label group.
    pub fn is_solved(&self, cb: &CompiledBoard) -> (b: bool)
        requires
            cb.wf(),
            forall|i: int| 0 <= i < self.box_cells@.len() ==> (#[trigger] self.box_cells@[i]).0 < cb.cell_count,
        ensures
            b == solved(cb, self.box_cells@),
    {
        let mut i: usize = 0;
        while i < self.box_cells.len()
            invariant
                cb.wf(),
                forall|k: int| 0 <= k < self.box_cells@.len() ==> (#[trigger] self.box_cells@[k]).0 < cb.cell_count,
                i <= self.box_cells@.len(),
                forall|k: int| 0 <= k < i ==> cb.goal_at_cell((#[trigger] self.box_cells@[k]).0 as int) == Some(self.box_cells@[k].1),
            decreases self.box_cells@.len() - i,
        {
            let (cell, label_group) = self.box_cells[i];
            if !cb.goal_matches(cell, label_group) {
                return false;
            }
            i += 1;
        }
        true
    }
}

} // verus!
