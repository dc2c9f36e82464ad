use vstd::prelude::*;

use crate::log::TelemetryCounters;

verus! {

/// Mutable counter accumulator used during a single search pass.
#[derive(Clone, Copy, Debug, Default, PartialEq, Eq, Structural)]
pub struct SearchCounters {
    pub expanded: u64,
    pub generated: u64,
    pub duplicates: u64,
    pub peak_frontier: u64,
    pub deadlock_static: u64,
    pub deadlock_two_by_two: u64,
    pub deadlock_freeze: u64,
    pub deadlock_pattern: u64,
    pub deadlock_goal_commitment: u64,
    pub deadlock_pi_corral: u64,
    pub deadlock_table: u64,
    pub heuristic_calls: u64,
    pub heuristic_cache_hits: u64,
    pub macro_forced_push: u64,
    pub macro_tunnel: u64,
    pub macro_goal: u64,
    pub transposition_unique: u64,
    pub transposition_duplicate: u64,
}

impl SearchCounters {
    /// The telemetry record of these counters, with the given peak memory.
    pub fn to_telemetry(&self, peak_memory: usize) -> (t: TelemetryCounters)
        ensures
            t.expanded_states == self.expanded,
            t.generated_states == self.generated,
            t.duplicate_states == self.duplicates,
            t.peak_frontier == self.peak_frontier,
            t.peak_memory_bytes == peak_memory,
            t.deadlock_static_prunes == self.deadlock_static,
            t.deadlock_two_by_two_prunes == self.deadlock_two_by_two,
            t.deadlock_freeze_prunes == self.deadlock_freeze,
            t.deadlock_pattern_prunes == self.deadlock_pattern,
            t.deadlock_goal_commitment_prunes == self.deadlock_goal_commitment,
            t.deadlock_pi_corral_prunes == self.deadlock_pi_corral,
            t.deadlock_table_prunes == self.deadlock_table,
            t.heuristic_calls == self.heuristic_calls,
            t.heuristic_cache_hits == self.heuristic_cache_hits,
            t.macro_forced_push == self.macro_forced_push,
            t.macro_tunnel == self.macro_tunnel,
            t.macro_goal == self.macro_goal,
            t.transposition_unique == self.transposition_unique,
            t.transposition_duplicate == self.transposition_duplicate,
    {
        TelemetryCounters {
            expanded_states: self.expanded,
            generated_states: self.generated,
            duplicate_states: self.duplicates,
            peak_frontier: self.peak_frontier,
            peak_memory_bytes: peak_memory,
            deadlock_static_prunes: self.deadlock_static,
            deadlock_two_by_two_prunes: self.deadlock_two_by_two,
            deadlock_freeze_prunes: self.deadlock_freeze,
            deadlock_pattern_prunes: self.deadlock_pattern,
            deadlock_goal_commitment_prunes: self.deadlock_goal_commitment,
            deadlock_pi_corral_prunes: self.deadlock_pi_corral,
            deadlock_table_prunes: self.deadlock_table,
            heuristic_calls: self.heuristic_calls,
            heuristic_cache_hits: self.heuristic_cache_hits,
            macro_forced_push: self.macro_forced_push,
            macro_tunnel: self.macro_tunnel,
            macro_goal: self.macro_goal,
            transposition_unique: self.transposition_unique,
            transposition_duplicate: self.transposition_duplicate,
        }
    }

    /// Raises the peak frontier to `current` when it is larger.
    pub fn update_peak_frontier(&mut self, current: u64)
        ensures
            final(self).peak_frontier == if current > old(self).peak_frontier {
                current
            } else {
                old(self).peak_frontier
            },
            *final(self) == (SearchCounters { peak_frontier: final(self).peak_frontier, ..*old(self) }),
    {
        if current > self.peak_frontier {
            self.peak_frontier = current;
        }
    }
}

} // verus!
