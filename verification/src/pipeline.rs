use vstd::prelude::*;

use crate::game::GameSnapshot;
use crate::position::Direction;

verus! {

/// The phases of a solver run.
#[derive(Clone, Copy, Debug, PartialEq, Eq, Structural)]
pub enum SolverPhase {
    Preparing,
    Searching,
    Harvesting,
    Improving,
    Proving,
    Verifying,
}

/// One step of a solution: the direction and whether it pushes a box.
#[derive(Clone, Copy, Debug, PartialEq, Eq, Structural)]
pub struct SolutionStep {
    pub direction: Direction,
    pub pushed: bool,
}

/// A solution with its counts and the snapshot it ends in.
#[derive(Clone, Debug)]
pub struct Solution {
    pub steps: Vec<SolutionStep>,
    pub moves: u32,
    pub pushes: u32,
    pub final_snapshot: GameSnapshot,
}

/// What is known about the optimality of a result.
#[derive(Clone, Copy, Debug, PartialEq, Eq, Structural)]
pub struct SolverProof {
    pub kind: ProofKind,
    pub lower_bound: u32,
    pub upper_bound: u32,
    pub gap: u32,
}

#[derive(Clone, Copy, Debug, PartialEq, Eq, Structural)]
pub enum ProofKind {
    Bounded,
    Optimal,
    Unsolvable,
}

/// The outcome of a solver run.
#[derive(Clone, Debug)]
pub enum SolverStatus {
    Solved,
    Unsolved { reason: String },
    Cancelled,
}

} // verus!
