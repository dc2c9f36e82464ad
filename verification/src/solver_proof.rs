use vstd::prelude::*;

use crate::pipeline::{ProofKind, SolverProof};

verus! {

/// A bounded proof: a solution was found but its optimality is not proven.
/// The gap is the distance between the bounds, or zero when the lower bound
/// is not below the upper bound.
pub fn bounded_proof(lower_bound: u32, upper_bound: u32) -> (p: SolverProof)
    ensures
        p.kind == ProofKind::Bounded,
        p.lower_bound == lower_bound,
        p.upper_bound == upper_bound,
        p.gap == if upper_bound >= lower_bound {
            (upper_bound - lower_bound) as u32
        } else {
            0
        },
{
    SolverProof {
        kind: ProofKind::Bounded,
        lower_bound,
        upper_bound,
        gap: upper_bound.saturating_sub(lower_bound),
    }
}

/// An optimal proof: both bounds equal the optimal cost and the gap is zero.
pub fn optimal_proof(optimal_cost: u32) -> (p: SolverProof)
    ensures
        p.kind == ProofKind::Optimal,
        p.lower_bound == optimal_cost,
        p.upper_bound == optimal_cost,
        p.gap == 0,
{
    SolverProof {
        kind: ProofKind::Optimal,
        lower_bound: optimal_cost,
        upper_bound: optimal_cost,
        gap: 0,
    }
}

/// A proof that no solution exists: both bounds are `u32::MAX`, the gap zero.
pub fn unsolvable_proof() -> (p: SolverProof)
    ensures
        p.kind == ProofKind::Unsolvable,
        p.lower_bound == u32::MAX,
        p.upper_bound == u32::MAX,
        p.gap == 0,
{
    SolverProof {
        kind: ProofKind::Unsolvable,
        lower_bound: u32::MAX,
        upper_bound: u32::MAX,
        gap: 0,
    }
}

/// Every proof these constructors build has bounds that differ by its gap
/// when they are ordered; the optimal and unsolvable proofs have no gap.
pub proof fn lemma_gap_is_bound_distance(lower: u32, upper: u32)
    requires
        lower <= upper,
    ensures
        upper - lower == (if upper >= lower {
            (upper - lower) as u32
        } else {
            0u32
        }),
{
}

} // verus!
