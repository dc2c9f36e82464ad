use vstd::prelude::*;

use crate::dense_state::{copy_cells, DenseState};

verus! {

/// Exact state key for collision-free transposition: the exact keeper cell
/// and the boxes, without the counters.
#[derive(Clone, Debug, PartialEq, Eq, Hash)]
pub struct ExactStateKey {
    pub keeper_cell: u16,
    pub box_cells: Vec<(u16, u8)>,
}

impl ExactStateKey {
    pub fn from_dense(state: &DenseState) -> (k: ExactStateKey)
        ensures
            k.keeper_cell == state.keeper_cell,
            k.box_cells@ == state.box_cells@,
    {
        ExactStateKey { keeper_cell: state.keeper_cell, box_cells: copy_cells(&state.box_cells) }
    }
}

/// Two states have the same key exactly when they agree on the keeper cell and
/// the boxes; the keeper zone and the counters do not matter.
pub proof fn lemma_key_ignores_counters(a: DenseState, b: DenseState, ka: ExactStateKey, kb: ExactStateKey)
    requires
        ka.keeper_cell == a.keeper_cell,
        ka.box_cells@ == a.box_cells@,
        kb.keeper_cell == b.keeper_cell,
        kb.box_cells@ == b.box_cells@,
    ensures
        (ka.keeper_cell == kb.keeper_cell && ka.box_cells@ == kb.box_cells@) <==> (a.keeper_cell
            == b.keeper_cell && a.box_cells@ == b.box_cells@),
{
}

} // verus!
