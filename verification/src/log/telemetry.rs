use vstd::prelude::*;

verus! {

/// Structured telemetry counters accumulated during search.
#[derive(Clone, Copy, Debug, Default, PartialEq, Eq, Structural)]
pub struct TelemetryCounters {
    pub expanded_states: u64,
    pub generated_states: u64,
    pub duplicate_states: u64,
    pub peak_frontier: u64,
    pub peak_memory_bytes: usize,
    pub deadlock_static_prunes: u64,
    pub deadlock_two_by_two_prunes: u64,
    pub deadlock_freeze_prunes: u64,
    pub deadlock_pattern_prunes: u64,
    pub deadlock_goal_commitment_prunes: u64,
    pub deadlock_pi_corral_prunes: u64,
    pub deadlock_table_prunes: u64,
    pub heuristic_calls: u64,
    pub heuristic_cache_hits: u64,
    pub macro_forced_push: u64,
    pub macro_tunnel: u64,
    pub macro_goal: u64,
    pub transposition_unique: u64,
    pub transposition_duplicate: u64,
}

/// The number of states pruned by all deadlock detectors together.
pub open spec fn deadlock_sum(t: TelemetryCounters) -> int {
    t.deadlock_static_prunes + t.deadlock_two_by_two_prunes + t.deadlock_freeze_prunes
        + t.deadlock_pattern_prunes + t.deadlock_goal_commitment_prunes
        + t.deadlock_pi_corral_prunes + t.deadlock_table_prunes
}

impl TelemetryCounters {
    pub fn total_deadlock_prunes(&self) -> (n: u64)
        requires
            deadlock_sum(*self) <= u64::MAX,
        ensures
            n == deadlock_sum(*self),
    {
        self.deadlock_static_prunes + self.deadlock_two_by_two_prunes + self.deadlock_freeze_prunes
            + self.deadlock_pattern_prunes + self.deadlock_goal_commitment_prunes
            + self.deadlock_pi_corral_prunes + self.deadlock_table_prunes
    }
}

} // verus!
