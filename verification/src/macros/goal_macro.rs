use vstd::prelude::*;

use crate::compiled_board::{lemma_goal_group_some, CompiledBoard, INVALID_CELL};
use crate::position::Direction;
use crate::topology::corner_spec;

verus! {

broadcast use vstd::std_specs::vec::group_vec_axioms;

/// Precomputed safe goals.
///
/// A safe goal is a goal in a corner: a box of its label, once there, is
/// never to be moved again, since a box pushed off a corner can never come
/// back. Boxes on safe goals need no pushes generated for them.
#[derive(Clone, Debug)]
pub struct SafeGoalMap {
    safe: Vec<bool>,
}

/// Cell `c` of the board is a goal in a corner.
pub open spec fn safe_goal(cb: &CompiledBoard, c: int) -> bool {
    cb.goal_at_cell(c).is_some() && corner_spec(cb.nbrs(), c)
}

impl SafeGoalMap {
    /// The safe-goal flag of every cell.
    pub closed spec fn flags(&self) -> Seq<bool> {
        self.safe@
    }

    /// The map marks exactly the safe goals of `cb`.
    pub open spec fn wf(&self, cb: &CompiledBoard) -> bool {
        &&& self.flags().len() == cb.cell_count
        &&& forall|c: int| 0 <= c < cb.cell_count ==> #[trigger] self.flags()[c] == safe_goal(cb, c)
    }

    /// Marks every goal that lies in a corner.
    pub fn analyze(cb: &CompiledBoard) -> (m: SafeGoalMap)
        requires
            cb.wf(),
        ensures
            m.wf(cb),
    {
        proof {
            cb.lemma_wf();
        }
        let n = cb.cell_count as usize;
        let mut safe: Vec<bool> = vec![false; n];
        let mut i: usize = 0;
        while i < cb.goal_cells.len()
            invariant
                cb.wf(),
                n == cb.cell_count,
                safe@.len() == n,
                i <= cb.goal_cells@.len(),
                forall|g: int| 0 <= g < cb.goal_cells@.len() ==> (#[trigger] cb.goal_cells@[g]).0 < n,
                forall|c: int|
                    0 <= c < n ==> #[trigger] safe@[c] == ((exists|g: int| 0 <= g < i && #[trigger] cb.goal_cells@[g].0 == c)
                        && corner_spec(cb.nbrs(), c)),
            decreases cb.goal_cells@.len() - i,
        {
            let goal_cell = cb.goal_cells[i].0;
            let is_safe = is_safe_goal(cb, goal_cell);
            if is_safe {
                safe.set(goal_cell as usize, true);
            }
            proof {
                assert forall|c: int| 0 <= c < n implies #[trigger] safe@[c] == ((exists|g: int| 0 <= g < i + 1 && #[trigger] cb.goal_cells@[g].0 == c)
                    && corner_spec(cb.nbrs(), c)) by {
                    if c == goal_cell {
                        assert(cb.goal_cells@[i as int].0 == c);
                    } else {
                        if exists|g: int| 0 <= g < i + 1 && #[trigger] cb.goal_cells@[g].0 == c {
                            let g = choose|g: int| 0 <= g < i + 1 && #[trigger] cb.goal_cells@[g].0 == c;
                            assert(g < i);
                        }
                    }
                }
            }
            i += 1;
        }
        proof {
            assert forall|c: int| 0 <= c < cb.cell_count implies #[trigger] safe@[c] == safe_goal(cb, c) by {
                lemma_goal_group_some(cb.goal_cells@, c);
            }
        }
        SafeGoalMap { safe }
    }

    /// Whether `cell` is a safe goal (false for a cell beyond the map). The
    /// caller checks the box's label separately.
    pub fn is_safe(&self, cell: u16) -> (b: bool)
        ensures
            b == (cell < self.flags().len() && self.flags()[cell as int]),
    {
        if (cell as usize) < self.safe.len() {
            self.safe[cell as usize]
        } else {
            false
        }
    }

    /// Whether a box of label group `label` on `cell` stands on a safe goal
    /// of its label, so that no push needs to be generated for it.
    pub fn is_committed(&self, cb: &CompiledBoard, cell: u16, label: u8) -> (b: bool)
        requires
            cb.wf(),
            cell < cb.cell_count,
        ensures
            b == (cb.goal_at_cell(cell as int) == Some(label) && cell < self.flags().len() && self.flags()[cell as int]),
    {
        cb.goal_matches(cell, label) && self.is_safe(cell)
    }
}

/// Whether the goal on `cell` lies in a corner: a box pushed off it could
/// never return.
fn is_safe_goal(cb: &CompiledBoard, cell: u16) -> (b: bool)
    requires
        cb.wf(),
        cell < cb.cell_count,
    ensures
        b == corner_spec(cb.nbrs(), cell as int),
{
    let up = cb.neighbor(cell, Direction::Up) == INVALID_CELL;
    let down = cb.neighbor(cell, Direction::Down) == INVALID_CELL;
    let left = cb.neighbor(cell, Direction::Left) == INVALID_CELL;
    let right = cb.neighbor(cell, Direction::Right) == INVALID_CELL;
    (up && left) || (up && right) || (down && left) || (down && right)
}

} // verus!
