use vstd::prelude::*;

use crate::assignment::{assignment_cost, hungarian, is_assignment, lemma_identity_assignment};
use crate::bits::{bit, lemma_bit_or, lemma_bit_zero};
use crate::compiled_board::{CompiledBoard, INVALID_CELL};
use crate::position::Direction;
use crate::topology::corner_spec;
use crate::types::Label;

verus! {

broadcast use vstd::std_specs::vec::group_vec_axioms;

/// The cost of a box that cannot reach a goal, and the most an entry of the
/// residual cost matrix is worth.
pub const COMMIT_COST_CAP: u32 = 10000;

/// The most boxes a commitment check handles: the largest residual matching
/// then costs at most `u32::MAX`.
pub const MAX_COMMIT_BOXES: usize = 429496;

/// Finds boxes that are committed: on a goal of their label in a corner (or,
/// aggressively, on any goal of their label), such that the other boxes of
/// that label can still be matched with the other goals of that label.
pub struct GoalCommitmentDetector {
    has_potential: bool,
}

/// Some goal of the board lies in a corner.
pub open spec fn corner_goal_exists(cb: &CompiledBoard) -> bool {
    exists|g: int| 0 <= g < cb.goal_cells@.len() && corner_spec(cb.nbrs(), #[trigger] cb.goal_cells@[g].0 as int)
}

/// The cells of the boxes among the first `k`, other than box `i`, that
/// share its label group, in order.
pub open spec fn remaining_boxes(boxes: Seq<(u16, u8)>, i: int, k: int) -> Seq<u16>
    decreases k,
{
    if k <= 0 {
        seq![]
    } else {
        let p = remaining_boxes(boxes, i, k - 1);
        if k - 1 != i && boxes[k - 1].1 == boxes[i].1 {
            p.push(boxes[k - 1].0)
        } else {
            p
        }
    }
}

/// The indices of the goals among the first `k` that have label group
/// `label` and are not on `cell`, in order.
pub open spec fn residual_goals(goals: Seq<(u16, Label)>, cell: u16, label: u8, k: int) -> Seq<usize>
    decreases k,
{
    if k <= 0 {
        seq![]
    } else {
        let p = residual_goals(goals, cell, label, k - 1);
        if goals[k - 1].1 == Label(label) && goals[k - 1].0 != cell {
            p.push((k - 1) as usize)
        } else {
            p
        }
    }
}

/// A push distance, capped at `COMMIT_COST_CAP` (unreachable counts as the cap).
pub open spec fn capped(d: u16) -> u32 {
    if d == u16::MAX || d > COMMIT_COST_CAP {
        COMMIT_COST_CAP
    } else {
        d as u32
    }
}

/// The cost of matching remaining box `r` with residual goal `j`: the capped
/// least number of pushes that bring it there.
pub open spec fn entry(cb: &CompiledBoard, rb: Seq<u16>, rg: Seq<usize>, r: int, j: int) -> u32 {
    capped(cb.push_dists(rg[j] as int)[rb[r] as int])
}

/// The cost of matching remaining box `r` with residual goal `a[r]`, for
/// every `r`.
pub open spec fn residual_cost(cb: &CompiledBoard, rb: Seq<u16>, rg: Seq<usize>, a: Seq<usize>) -> int
    decreases a.len(),
{
    if a.len() == 0 {
        0
    } else {
        residual_cost(cb, rb, rg, a.drop_last()) + entry(cb, rb, rg, a.len() - 1, a.last() as int) as int
    }
}

/// Remaining box `r` reaches some residual goal within the cap.
pub open spec fn row_open(cb: &CompiledBoard, rb: Seq<u16>, rg: Seq<usize>, r: int) -> bool {
    exists|j: int| 0 <= j < rg.len() && #[trigger] entry(cb, rb, rg, r, j) < COMMIT_COST_CAP
}

/// Taking box `i` out of play still leaves a matching of the other boxes of
/// its label with the other goals of its label: there are as many of each,
/// and unless there are none, every such box reaches some such goal within
/// the cap, and some matching costs less than the cap per box.
pub open spec fn residual_feasible(cb: &CompiledBoard, boxes: Seq<(u16, u8)>, i: int) -> bool {
    let rb = remaining_boxes(boxes, i, boxes.len() as int);
    let rg = residual_goals(cb.goal_cells@, boxes[i].0, boxes[i].1, cb.goal_cells@.len() as int);
    let n = rb.len() as int;
    if n != rg.len() {
        false
    } else if n == 0 {
        true
    } else {
        &&& forall|r: int| 0 <= r < n ==> #[trigger] row_open(cb, rb, rg, r)
        &&& exists|a: Seq<usize>| #[trigger] is_assignment(a, n, n) && residual_cost(cb, rb, rg, a) < COMMIT_COST_CAP * n
    }
}

/// Box `b` stands on a goal of its label group.
pub open spec fn on_own_goal(cb: &CompiledBoard, boxes: Seq<(u16, u8)>, b: int) -> bool {
    cb.goal_at_cell(boxes[b].0 as int) == Some(boxes[b].1)
}

/// The boxes `boxes` can be asked about: their cells are cells of the board,
/// and there are not too many.
pub open spec fn boxes_on_board(cb: &CompiledBoard, boxes: Seq<(u16, u8)>) -> bool {
    &&& boxes.len() <= MAX_COMMIT_BOXES
    &&& forall|i: int| 0 <= i < boxes.len() ==> (#[trigger] boxes[i]).0 < cb.cell_count
}

proof fn lemma_remaining_members(boxes: Seq<(u16, u8)>, i: int, k: int)
    requires
        0 <= k <= boxes.len(),
    ensures
        remaining_boxes(boxes, i, k).len() <= k,
        forall|r: int|
            0 <= r < remaining_boxes(boxes, i, k).len() ==> exists|t: int|
                0 <= t < k && #[trigger] remaining_boxes(boxes, i, k)[r] == boxes[t].0,
    decreases k,
{
    if k > 0 {
        lemma_remaining_members(boxes, i, k - 1);
        let p = remaining_boxes(boxes, i, k - 1);
        assert forall|r: int| 0 <= r < remaining_boxes(boxes, i, k).len() implies exists|t: int|
            0 <= t < k && #[trigger] remaining_boxes(boxes, i, k)[r] == boxes[t].0 by {
            if r < p.len() {
                assert(remaining_boxes(boxes, i, k)[r] == p[r]);
                let t = choose|t: int| 0 <= t < k - 1 && #[trigger] p[r] == boxes[t].0;
                assert(0 <= t < k && remaining_boxes(boxes, i, k)[r] == boxes[t].0);
            } else {
                assert(remaining_boxes(boxes, i, k)[r] == boxes[k - 1].0);
            }
        }
    }
}

proof fn lemma_residual_members(goals: Seq<(u16, Label)>, cell: u16, label: u8, k: int)
    requires
        0 <= k <= goals.len(),
        goals.len() <= usize::MAX,
    ensures
        residual_goals(goals, cell, label, k).len() <= k,
        forall|j: int| 0 <= j < residual_goals(goals, cell, label, k).len() ==> #[trigger] residual_goals(goals, cell, label, k)[j] < k,
    decreases k,
{
    if k > 0 {
        lemma_residual_members(goals, cell, label, k - 1);
        let p = residual_goals(goals, cell, label, k - 1);
        assert forall|j: int| 0 <= j < residual_goals(goals, cell, label, k).len() implies #[trigger] residual_goals(goals, cell, label, k)[j] < k by {
            if j < p.len() {
                assert(residual_goals(goals, cell, label, k)[j] == p[j]);
            }
        }
    }
}

proof fn lemma_costs_agree(cost: Seq<Vec<u32>>, cb: &CompiledBoard, rb: Seq<u16>, rg: Seq<usize>, a: Seq<usize>)
    requires
        cost.len() == rb.len(),
        a.len() <= rb.len(),
        forall|r: int| 0 <= r < a.len() ==> (#[trigger] a[r]) < rg.len(),
        forall|r: int, j: int| 0 <= r < rb.len() && 0 <= j < rg.len() ==> #[trigger] cost[r]@[j] == entry(cb, rb, rg, r, j),
    ensures
        assignment_cost(cost, a) == residual_cost(cb, rb, rg, a),
    decreases a.len(),
{
    if a.len() > 0 {
        lemma_costs_agree(cost, cb, rb, rg, a.drop_last());
        assert(cost[a.len() - 1]@[a.last() as int] == entry(cb, rb, rg, a.len() - 1, a.last() as int));
    }
}

/// Whether `cell` has walls on two perpendicular sides.
fn is_corner(cb: &CompiledBoard, cell: u16) -> (b: bool)
    requires
        cb.wf(),
        cell < cb.cell_count,
    ensures
        b == corner_spec(cb.nbrs(), cell as int),
{
    let up = cb.neighbor(cell, Direction::Up) == INVALID_CELL;
    let down = cb.neighbor(cell, Direction::Down) == INVALID_CELL;
    let left = cb.neighbor(cell, Direction::Left) == INVALID_CELL;
    let right = cb.neighbor(cell, Direction::Right) == INVALID_CELL;
    (up && left) || (up && right) || (down && left) || (down && right)
}

/// Whether the boxes of the label of box `exclude_index`, without it, can
/// still all be matched with the goals of that label not under it.
fn residual_assignment_feasible(cb: &CompiledBoard, box_cells: &[(u16, u8)], exclude_index: usize) -> (b: bool)
    requires
        cb.wf(),
        boxes_on_board(cb, box_cells@),
        exclude_index < box_cells@.len(),
    ensures
        b == residual_feasible(cb, box_cells@, exclude_index as int),
{
    proof {
        cb.lemma_wf();
    }
    let ghost boxes = box_cells@;
    let excluded_cell = box_cells[exclude_index].0;
    let excluded_label = box_cells[exclude_index].1;
    let mut remaining: Vec<u16> = Vec::new();
    let mut i: usize = 0;
    while i < box_cells.len()
        invariant
            boxes == box_cells@,
            exclude_index < boxes.len(),
            excluded_label == boxes[exclude_index as int].1,
            i <= boxes.len(),
            remaining@ == remaining_boxes(boxes, exclude_index as int, i as int),
        decreases boxes.len() - i,
    {
        let (c, l) = box_cells[i];
        if i != exclude_index && l == excluded_label {
            remaining.push(c);
        }
        i += 1;
    }
    let mut residual: Vec<usize> = Vec::new();
    let mut gi: usize = 0;
    while gi < cb.goal_cells.len()
        invariant
            gi <= cb.goal_cells@.len(),
            residual@ == residual_goals(cb.goal_cells@, excluded_cell, excluded_label, gi as int),
        decreases cb.goal_cells@.len() - gi,
    {
        let (gcell, glabel) = cb.goal_cells[gi];
        if gcell == excluded_cell && glabel == Label(excluded_label) {
            gi += 1;
            continue;
        }
        if glabel == Label(excluded_label) {
            residual.push(gi);
        }
        gi += 1;
    }
    let ghost rb = remaining@;
    let ghost rg = residual@;
    if remaining.len() != residual.len() {
        return false;
    }
    if remaining.len() == 0 {
        return true;
    }
    let n = remaining.len();
    proof {
        lemma_remaining_members(boxes, exclude_index as int, boxes.len() as int);
        lemma_residual_members(cb.goal_cells@, excluded_cell, excluded_label, cb.goal_cells@.len() as int);
        assert forall|r: int| 0 <= r < n implies (#[trigger] rb[r]) < cb.cell_count by {
            let t = choose|t: int| 0 <= t < boxes.len() && #[trigger] rb[r] == boxes[t].0;
            assert(boxes[t].0 < cb.cell_count);
        }
    }
    let cap = COMMIT_COST_CAP;
    let mut cost: Vec<Vec<u32>> = Vec::new();
    let mut r: usize = 0;
    while r < n
        invariant
            cb.wf(),
            n == rb.len(),
            n == rg.len(),
            rb == remaining@,
            rg == residual@,
            cap == COMMIT_COST_CAP,
            forall|k: int| 0 <= k < n ==> (#[trigger] rb[k]) < cb.cell_count,
            forall|j: int| 0 <= j < n ==> (#[trigger] rg[j]) < cb.goal_cells@.len(),
            r <= n,
            cost@.len() == r,
            forall|k: int| 0 <= k < r ==> (#[trigger] cost@[k])@.len() == n,
            forall|k: int, j: int| 0 <= k < r && 0 <= j < n ==> #[trigger] cost@[k]@[j] == entry(cb, rb, rg, k, j),
        decreases n - r,
    {
        let box_cell = remaining[r];
        let mut row: Vec<u32> = Vec::new();
        let mut j: usize = 0;
        while j < n
            invariant
                cb.wf(),
                n == rb.len(),
                n == rg.len(),
                rb == remaining@,
                rg == residual@,
                cap == COMMIT_COST_CAP,
                forall|k: int| 0 <= k < n ==> (#[trigger] rb[k]) < cb.cell_count,
                forall|k: int| 0 <= k < n ==> (#[trigger] rg[k]) < cb.goal_cells@.len(),
                r < n,
                box_cell == rb[r as int],
                j <= n,
                row@.len() == j,
                forall|k: int| 0 <= k < j ==> #[trigger] row@[k] == entry(cb, rb, rg, r as int, k),
            decreases n - j,
        {
            let d = cb.reverse_push_distance(residual[j], box_cell) as u32;
            let v = if d == 65535u32 || d > cap {
                cap
            } else {
                d
            };
            row.push(v);
            j += 1;
        }
        let ghost before = cost@;
        cost.push(row);
        proof {
            assert forall|k: int, j2: int| 0 <= k < r + 1 && 0 <= j2 < n implies #[trigger] cost@[k]@[j2] == entry(cb, rb, rg, k, j2) by {
                if k < r {
                    assert(cost@[k] == before[k]);
                }
            }
        }
        r += 1;
    }
    let mut k: usize = 0;
    while k < n
        invariant
            n == rb.len(),
            n == rg.len(),
            rb == remaining_boxes(box_cells@, exclude_index as int, box_cells@.len() as int),
            rg == residual_goals(cb.goal_cells@, box_cells@[exclude_index as int].0, box_cells@[exclude_index as int].1, cb.goal_cells@.len() as int),
            exclude_index < box_cells@.len(),
            n > 0,
            cap == COMMIT_COST_CAP,
            cost@.len() == n,
            forall|q: int| 0 <= q < n ==> (#[trigger] cost@[q])@.len() == n,
            forall|q: int, j: int| 0 <= q < n && 0 <= j < n ==> #[trigger] cost@[q]@[j] == entry(cb, rb, rg, q, j),
            k <= n,
            forall|q: int| 0 <= q < k ==> #[trigger] row_open(cb, rb, rg, q),
        decreases n - k,
    {
        let mut all_capped = true;
        let mut j: usize = 0;
        while j < n
            invariant
                n == rb.len(),
                n == rg.len(),
                cap == COMMIT_COST_CAP,
                cost@.len() == n,
                forall|q: int| 0 <= q < n ==> (#[trigger] cost@[q])@.len() == n,
                forall|q: int, j2: int| 0 <= q < n && 0 <= j2 < n ==> #[trigger] cost@[q]@[j2] == entry(cb, rb, rg, q, j2),
                k < n,
                j <= n,
                all_capped == forall|q: int| 0 <= q < j ==> #[trigger] entry(cb, rb, rg, k as int, q) >= COMMIT_COST_CAP,
            decreases n - j,
        {
            if cost[k][j] < cap {
                all_capped = false;
            }
            j += 1;
        }
        if all_capped {
            proof {
                assert(!row_open(cb, rb, rg, k as int));
            }
            return false;
        }
        proof {
            let j = choose|j: int| 0 <= j < n && !(#[trigger] entry(cb, rb, rg, k as int, j) >= COMMIT_COST_CAP);
            assert(0 <= j < n && entry(cb, rb, rg, k as int, j) < COMMIT_COST_CAP);
        }
        k += 1;
    }
    proof {
        assert forall|q: int, j: int| 0 <= q < cost@.len() && 0 <= j < cost@.len() implies (#[trigger] cost@[q]@[j]) <= COMMIT_COST_CAP by {
            assert(cost@[q]@[j] == entry(cb, rb, rg, q, j));
        }
        lemma_identity_assignment(cost@, COMMIT_COST_CAP as int);
        assert(n * COMMIT_COST_CAP <= u32::MAX) by (nonlinear_arith)
            requires
                n <= MAX_COMMIT_BOXES,
        ;
        let id = Seq::new(cost@.len(), |q: int| q as usize);
        assert(is_assignment(id, cost@.len() as int, crate::assignment::column_count(cost@)));
    }
    let (total, assignment) = hungarian(cost.as_slice());
    let limit = cap * (n as u32);
    proof {
        assert(n * COMMIT_COST_CAP <= u32::MAX) by (nonlinear_arith)
            requires
                n <= MAX_COMMIT_BOXES,
        ;
        assert forall|a: Seq<usize>| #[trigger] is_assignment(a, n as int, n as int) implies assignment_cost(cost@, a) == residual_cost(cb, rb, rg, a) by {
            lemma_costs_agree(cost@, cb, rb, rg, a);
        }
        assert(is_assignment(assignment@, n as int, n as int));
    }
    total < limit
}

impl GoalCommitmentDetector {
    /// Whether some goal of the board lies in a corner.
    pub closed spec fn potential(&self) -> bool {
        self.has_potential
    }

    /// Notes whether the board has a goal in a corner: without one, no box
    /// is ever committed by `find_committed_boxes`.
    pub fn new(cb: &CompiledBoard) -> (d: GoalCommitmentDetector)
        requires
            cb.wf(),
        ensures
            d.potential() == corner_goal_exists(cb),
    {
        proof {
            cb.lemma_wf();
        }
        let mut has_potential = false;
        let mut g: usize = 0;
        while g < cb.goal_cells.len()
            invariant
                cb.wf(),
                g <= cb.goal_cells@.len(),
                forall|k: int| 0 <= k < cb.goal_cells@.len() ==> (#[trigger] cb.goal_cells@[k]).0 < cb.cell_count,
                has_potential == exists|k: int| 0 <= k < g && corner_spec(cb.nbrs(), #[trigger] cb.goal_cells@[k].0 as int),
            decreases cb.goal_cells@.len() - g,
        {
            if is_corner(cb, cb.goal_cells[g].0) {
                has_potential = true;
            }
            g += 1;
        }
        GoalCommitmentDetector { has_potential }
    }

    /// Whether the board has a goal in a corner.
    pub fn has_potential(&self) -> (b: bool)
        ensures
            b == self.potential(),
    {
        self.has_potential
    }

    /// The committed boxes among the first 64, as a bit mask: those on a goal
    /// of their label in a corner whose removal leaves a feasible matching of
    /// the rest of their label. Nothing is committed on a board without a
    /// corner goal.
    pub fn find_committed_boxes(&self, cb: &CompiledBoard, box_cells: &[(u16, u8)]) -> (mask: u64)
        requires
            cb.wf(),
            boxes_on_board(cb, box_cells@),
        ensures
            !self.potential() ==> mask == 0,
            self.potential() ==> forall|b: int|
                0 <= b < 64 ==> (#[trigger] bit(mask, b) <==> (b < box_cells@.len() && on_own_goal(cb, box_cells@, b)
                    && corner_spec(cb.nbrs(), box_cells@[b].0 as int) && residual_feasible(cb, box_cells@, b))),
    {
        if !self.has_potential {
            return 0;
        }
        let lim = if box_cells.len() < 64 {
            box_cells.len()
        } else {
            64
        };
        let mut mask: u64 = 0;
        let mut i: usize = 0;
        proof {
            assert forall|c: int| 0 <= c < 64 implies !#[trigger] bit(0u64, c) by {
                lemma_bit_zero(c as u64);
            }
        }
        while i < lim
            invariant
                cb.wf(),
                boxes_on_board(cb, box_cells@),
                lim <= 64,
                lim <= box_cells@.len(),
                lim == box_cells@.len() || lim == 64,
                i <= lim,
                forall|b: int|
                    0 <= b < 64 ==> (#[trigger] bit(mask, b) <==> (b < i && on_own_goal(cb, box_cells@, b) && corner_spec(
                        cb.nbrs(),
                        box_cells@[b].0 as int,
                    ) && residual_feasible(cb, box_cells@, b))),
            decreases lim - i,
        {
            let (cell, label) = box_cells[i];
            if !cb.goal_matches(cell, label) {
                i += 1;
                continue;
            }
            if !is_corner(cb, cell) {
                i += 1;
                continue;
            }
            if !residual_assignment_feasible(cb, box_cells, i) {
                i += 1;
                continue;
            }
            let old_mask = mask;
            mask = mask | (1u64 << (i as u64));
            proof {
                assert forall|c: int| 0 <= c < 64 implies #[trigger] bit(mask, c) == (bit(old_mask, c) || i == c) by {
                    lemma_bit_or(old_mask, i as u64, c as u64);
                }
            }
            i += 1;
        }
        mask
    }

    /// The committed boxes among the first 64 when any box on a goal of its
    /// label counts, corner or not, as long as its removal leaves a feasible
    /// matching of the rest of its label.
    pub fn find_committed_boxes_aggressive(&self, cb: &CompiledBoard, box_cells: &[(u16, u8)]) -> (mask: u64)
        requires
            cb.wf(),
            boxes_on_board(cb, box_cells@),
        ensures
            forall|b: int|
                0 <= b < 64 ==> (#[trigger] bit(mask, b) <==> (b < box_cells@.len() && on_own_goal(cb, box_cells@, b)
                    && residual_feasible(cb, box_cells@, b))),
    {
        proof {
            assert forall|c: int| 0 <= c < 64 implies !#[trigger] bit(0u64, c) by {
                lemma_bit_zero(c as u64);
            }
        }
        let lim = if box_cells.len() < 64 {
            box_cells.len()
        } else {
            64
        };
        let mut mask: u64 = 0;
        let mut i: usize = 0;
        while i < lim
            invariant
                cb.wf(),
                boxes_on_board(cb, box_cells@),
                lim <= 64,
                lim <= box_cells@.len(),
                lim == box_cells@.len() || lim == 64,
                i <= lim,
                forall|b: int| 0 <= b < 64 ==> (#[trigger] bit(mask, b) <==> (b < i && on_own_goal(cb, box_cells@, b))),
            decreases lim - i,
        {
            let (cell, label) = box_cells[i];
            if cb.goal_matches(cell, label) {
                let old_mask = mask;
                mask = mask | (1u64 << (i as u64));
                proof {
                    assert forall|c: int| 0 <= c < 64 implies #[trigger] bit(mask, c) == (bit(old_mask, c) || i == c) by {
                        lemma_bit_or(old_mask, i as u64, c as u64);
                    }
                }
            }
            i += 1;
        }
        if mask == 0 {
            proof {
                assert forall|b: int| 0 <= b < 64 implies (#[trigger] bit(0u64, b) <==> (b < box_cells@.len() && on_own_goal(cb, box_cells@, b)
                    && residual_feasible(cb, box_cells@, b))) by {
                    lemma_bit_zero(b as u64);
                    assert(!bit(mask, b));
                }
            }
            return 0;
        }
        let mut verified: u64 = 0;
        let mut k: usize = 0;
        while k < lim
            invariant
                cb.wf(),
                boxes_on_board(cb, box_cells@),
                lim <= 64,
                lim <= box_cells@.len(),
                lim == box_cells@.len() || lim == 64,
                k <= lim,
                forall|b: int| 0 <= b < 64 ==> (#[trigger] bit(mask, b) <==> (b < lim && on_own_goal(cb, box_cells@, b))),
                forall|b: int|
                    0 <= b < 64 ==> (#[trigger] bit(verified, b) <==> (b < k && on_own_goal(cb, box_cells@, b)
                        && residual_feasible(cb, box_cells@, b))),
            decreases lim - k,
        {
            let set = (mask & (1u64 << (k as u64))) != 0;
            proof {
                assert(set == bit(mask, k as int));
            }
            if set {
                if residual_assignment_feasible(cb, box_cells, k) {
                    let old_verified = verified;
                    verified = verified | (1u64 << (k as u64));
                    proof {
                        assert forall|c: int| 0 <= c < 64 implies #[trigger] bit(verified, c) == (bit(old_verified, c) || k == c) by {
                            lemma_bit_or(old_verified, k as u64, c as u64);
                        }
                    }
                }
            }
            k += 1;
        }
        verified
    }
}

} // verus!
