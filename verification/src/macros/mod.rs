pub mod forced_push;
pub mod goal_macro;
pub mod tunnel;

use vstd::prelude::*;

use crate::compiled_board::CompiledBoard;

use self::goal_macro::SafeGoalMap;
use self::tunnel::TunnelMap;

verus! {

/// All precomputed macro data of a board, built once before the search.
#[derive(Clone, Debug)]
pub struct MacroEngine {
    pub tunnels: TunnelMap,
    pub safe_goals: SafeGoalMap,
}

impl MacroEngine {
    /// Analyses the tunnels and the safe goals of `cb`.
    pub fn new(cb: &CompiledBoard) -> (e: MacroEngine)
        requires
            cb.wf(),
        ensures
            e.tunnels.wf(cb),
            e.safe_goals.wf(cb),
    {
        MacroEngine { tunnels: TunnelMap::analyze(cb), safe_goals: SafeGoalMap::analyze(cb) }
    }
}

} // verus!
