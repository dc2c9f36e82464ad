use vstd::prelude::*;

use crate::config::SolverLimits;
use core::time::Duration;
use std::time::Instant;

verus! {

/// A point in time of the monotonic clock.
#[verifier::external_type_specification]
#[verifier::external_body]
pub struct ExInstant(Instant);

/// `Instant::now`: the current time of the monotonic clock. Nothing is promised
/// of the value.
#[verifier::external_body]
fn clock_now() -> Instant {
    Instant::now()
}

/// `Instant::elapsed`: the time passed since `start`. The value depends on the
/// clock, so nothing is promised of it.
#[verifier::external_body]
fn clock_elapsed(start: &Instant) -> Duration {
    start.elapsed()
}

/// `Duration::as_micros`: the whole number of microseconds in a duration. The
/// duration is opaque here, so nothing is promised of the number.
#[verifier::external_body]
fn duration_micros(d: &Duration) -> u128 {
    d.as_micros()
}

/// Tracks time, state and memory budgets during search.
pub struct Budget {
    start: Instant,
    limits: SolverLimits,
    expanded: u64,
    generated: u64,
}

/// One of the two state limits has been reached.
pub open spec fn states_exhausted(limits: SolverLimits, expanded: u64, generated: u64) -> bool {
    ||| (limits.max_expanded_states matches Some(m) && expanded >= m)
    ||| (limits.max_generated_states matches Some(m) && generated >= m)
}

/// The time limit has been reached after `elapsed_micros` microseconds.
pub open spec fn time_exhausted(limits: SolverLimits, elapsed_micros: u128) -> bool {
    limits.max_time_ms matches Some(m) && elapsed_micros >= m * 1000
}

impl Budget {
    pub closed spec fn spec_limits(&self) -> SolverLimits {
        self.limits
    }

    pub closed spec fn spec_expanded(&self) -> u64 {
        self.expanded
    }

    pub closed spec fn spec_generated(&self) -> u64 {
        self.generated
    }

    /// A budget that starts now, with no states counted yet.
    pub fn new(limits: &SolverLimits) -> (b: Budget)
        ensures
            b.spec_limits() == *limits,
            b.spec_expanded() == 0,
            b.spec_generated() == 0,
    {
        Budget { start: clock_now(), limits: *limits, expanded: 0, generated: 0 }
    }

    pub fn tick_expanded(&mut self)
        requires
            old(self).spec_expanded() < u64::MAX,
        ensures
            final(self).spec_expanded() == old(self).spec_expanded() + 1,
            final(self).spec_generated() == old(self).spec_generated(),
            final(self).spec_limits() == old(self).spec_limits(),
    {
        self.expanded += 1;
    }

    pub fn tick_generated(&mut self, count: u64)
        requires
            old(self).spec_generated() + count <= u64::MAX,
        ensures
            final(self).spec_generated() == old(self).spec_generated() + count,
            final(self).spec_expanded() == old(self).spec_expanded(),
            final(self).spec_limits() == old(self).spec_limits(),
    {
        self.generated += count;
    }

    /// Whether the budget is spent after `elapsed_micros` microseconds: the time
    /// limit, or a limit on expanded or generated states, has been reached.
    pub fn exhausted_at(&self, elapsed_micros: u128) -> (r: bool)
        ensures
            r == (time_exhausted(self.spec_limits(), elapsed_micros) || states_exhausted(
                self.spec_limits(),
                self.spec_expanded(),
                self.spec_generated(),
            )),
    {
        if let Some(max_ms) = self.limits.max_time_ms {
            if elapsed_micros >= (max_ms as u128) * 1000 {
                return true;
            }
        }
        if let Some(max_exp) = self.limits.max_expanded_states {
            if self.expanded >= max_exp {
                return true;
            }
        }
        if let Some(max_gen) = self.limits.max_generated_states {
            if self.generated >= max_gen {
                return true;
            }
        }
        false
    }

    /// Whether the budget is spent now. The answer on the time limit depends
    /// on the clock; the state limits decide it exactly.
    pub fn exhausted(&self) -> (r: bool)
        ensures
            states_exhausted(self.spec_limits(), self.spec_expanded(), self.spec_generated()) ==> r,
            self.spec_limits().max_time_ms is None ==> (r == states_exhausted(
                self.spec_limits(),
                self.spec_expanded(),
                self.spec_generated(),
            )),
    {
        let elapsed = clock_elapsed(&self.start);
        let micros = duration_micros(&elapsed);
        self.exhausted_at(micros)
    }

    /// Whether `current_bytes` stays below the memory limit.
    pub fn memory_ok(&self, current_bytes: usize) -> (r: bool)
        ensures
            r == match self.spec_limits().max_memory_bytes {
                Some(max) => current_bytes < max,
                None => true,
            },
    {
        match self.limits.max_memory_bytes {
            Some(max) => current_bytes < max,
            None => true,
        }
    }

    pub fn expanded(&self) -> (n: u64)
        ensures
            n == self.spec_expanded(),
    {
        self.expanded
    }

    pub fn generated(&self) -> (n: u64)
        ensures
            n == self.spec_generated(),
    {
        self.generated
    }
}

} // verus!
