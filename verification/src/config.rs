use vstd::prelude::*;

use crate::board::ParsedBoard;
use crate::game::GameSnapshot;

verus! {

/// A request to the solver.
#[derive(Clone, Debug)]
pub struct SolverRequest {
    pub board: ParsedBoard,
    pub snapshot: GameSnapshot,
    pub limits: SolverLimits,
    pub options: SolverOptions,
}

/// Limits on time, states and memory; `None` means no limit.
#[derive(Clone, Copy, Debug, PartialEq, Eq, Structural)]
pub struct SolverLimits {
    pub max_time_ms: Option<u64>,
    pub max_expanded_states: Option<u64>,
    pub max_generated_states: Option<u64>,
    pub max_memory_bytes: Option<usize>,
}

impl Default for SolverLimits {
    /// Three minutes, half a million expansions, five million generated
    /// states and 768 MiB.
    fn default() -> (l: Self)
        ensures
            l.max_time_ms == Some(180_000u64),
            l.max_expanded_states == Some(500_000u64),
            l.max_generated_states == Some(5_000_000u64),
            l.max_memory_bytes == Some(805306368usize),
    {
        SolverLimits {
            max_time_ms: Some(180_000),
            max_expanded_states: Some(500_000),
            max_generated_states: Some(5_000_000),
            max_memory_bytes: Some(768 * 1024 * 1024),
        }
    }
}

#[derive(Clone, Copy, Debug, PartialEq, Eq, Structural)]
pub struct SolverOptions {
    pub mode: SolverMode,
    pub deterministic: bool,
    pub log_level: LogLevel,
    pub seed: Option<u64>,
}

impl Default for SolverOptions {
    /// Fast mode, nondeterministic, logging at `Info`, no seed.
    fn default() -> (o: Self)
        ensures
            o.mode == SolverMode::Fast,
            !o.deterministic,
            o.log_level == LogLevel::Info,
            o.seed is None,
    {
        SolverOptions {
            mode: SolverMode::Fast,
            deterministic: false,
            log_level: LogLevel::Info,
            seed: None,
        }
    }
}

#[derive(Clone, Copy, Debug, PartialEq, Eq, Structural)]
pub enum SolverMode {
    Fast,
    Quality,
    Optimal,
}

/// Log levels, from the most verbose up.
#[derive(Clone, Copy, Debug, PartialEq, Eq, Structural, PartialOrd, Ord)]
pub enum LogLevel {
    Trace,
    Debug,
    Info,
    Warn,
    Error,
}

} // verus!
