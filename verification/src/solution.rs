use vstd::prelude::*;

use crate::board::ParsedBoard;
use crate::compiled_board::{CompiledBoard, INVALID_CELL};
use crate::dense_state::lemma_pairs_sorted_cells;
use crate::game::{create_snapshot, initial_view, lemma_step_frame, step_snapshot, GameSnapshot, SnapshotView};
use crate::improvement::move_window::{optimize_walks, run_replaced, steps_ok, trace, trailing_walks, walks_replaced};
use crate::improvement::{
    ahead, boxes_after, keeper_after, lemma_moves_on_board, lemma_prefix_ok, moved_pairs, moves_ok, sorted_start_boxes,
    start_boxes,
};
use crate::deadlock::DeadlockChecker;
use crate::dense_state::initial_pairs;
use crate::improvement::{improve_push_sequence, on_board};
use crate::improvement::bridge_astar::MAX_SEGMENT_PUSHES;
use crate::pipeline::{Solution, SolutionStep, SolverProof, SolverStatus, ProofKind};
use crate::solver_proof::{bounded_proof, optimal_proof, unsolvable_proof};
use crate::sorting::pairs_sorted;
use crate::text::{push_decimal, push_str_chars};
use crate::position::{spec_opposite, Direction};
use crate::graph::reachable;
use crate::reachability::{distance_is, find_keeper_path, follow, walks};
use crate::replay::{lemma_safe_step, pos_safe, replayable};
use crate::verification::{count_pushes, verify_from, verify_solution, VerificationError};

verus! {

broadcast use vstd::std_specs::vec::group_vec_axioms;

/// Why a push sequence could not be turned into a solution.
#[derive(Debug)]
pub enum PushConversionError {
    UnreachablePushPosition,
    Verification(VerificationError),
}

/// The cell from which push `i` is made: behind its box, against the push.
pub open spec fn push_from_of(cb: &CompiledBoard, pushes: Seq<(usize, Direction)>, i: int) -> int {
    let boxes = boxes_after(cb, start_boxes(cb), pushes.take(i));
    ahead(cb, boxes[pushes[i].0 as int].0 as int, spec_opposite(pushes[i].1)) as int
}

/// The keeper, standing where the previous push left it, can walk behind the
/// box of push `i`.
pub open spec fn push_reachable(cb: &CompiledBoard, pushes: Seq<(usize, Direction)>, i: int) -> bool {
    let boxes = boxes_after(cb, start_boxes(cb), pushes.take(i));
    let k = keeper_after(cb, cb.robot_cell as int, start_boxes(cb), pushes.take(i));
    let from = push_from_of(cb, pushes, i);
    k == from || (k != INVALID_CELL && from != INVALID_CELL && reachable(walks(cb.nbrs(), boxes), k, from))
}

/// `seg` is made of walking steps, and walks the keeper by a shortest way
/// around `boxes` from `keeper` to `from`; no steps when it stands there.
pub open spec fn shortest_walk(
    cb: &CompiledBoard,
    boxes: Seq<(u16, u8)>,
    keeper: int,
    from: int,
    seg: Seq<(Direction, bool)>,
) -> bool {
    &&& forall|j: int| 0 <= j < seg.len() ==> !(#[trigger] seg[j]).1
    &&& if keeper == from {
        seg.len() == 0
    } else {
        &&& follow(cb.nbrs(), boxes, keeper, seg.map_values(|s: (Direction, bool)| s.0)) == Some(from)
        &&& distance_is(walks(cb.nbrs(), boxes), keeper, from, seg.len())
    }
}

/// Push `i` is made by the steps from `cuts[i]` to `cuts[i + 1]`: a shortest
/// walk of the keeper to the cell behind its box, then the push itself.
pub open spec fn push_made(
    cb: &CompiledBoard,
    pushes: Seq<(usize, Direction)>,
    steps: Seq<(Direction, bool)>,
    cuts: Seq<int>,
    i: int,
) -> bool {
    let before = pushes.take(i);
    &&& cuts[i] < cuts[i + 1]
    &&& steps[cuts[i + 1] - 1] == (pushes[i].1, true)
    &&& shortest_walk(
        cb,
        boxes_after(cb, start_boxes(cb), before),
        keeper_after(cb, cb.robot_cell as int, start_boxes(cb), before),
        push_from_of(cb, pushes, i),
        steps.subrange(cuts[i], cuts[i + 1] - 1),
    )
}

/// `cuts` splits `steps` into the making of each of the pushes, in order.
pub open spec fn push_split(
    cb: &CompiledBoard,
    pushes: Seq<(usize, Direction)>,
    steps: Seq<(Direction, bool)>,
    cuts: Seq<int>,
) -> bool {
    &&& cuts.len() == pushes.len() + 1
    &&& cuts[0] == 0
    &&& cuts[pushes.len() as int] == steps.len()
    &&& forall|i: int| 0 <= i < pushes.len() ==> #[trigger] push_made(cb, pushes, steps, cuts, i)
}

/// `steps` makes the pushes from the start: before each push, a shortest
/// walk of the keeper to the cell behind its box, then the push itself.
pub open spec fn push_steps(cb: &CompiledBoard, pushes: Seq<(usize, Direction)>, steps: Seq<(Direction, bool)>) -> bool {
    exists|cuts: Seq<int>| #[trigger] push_split(cb, pushes, steps, cuts)
}

/// The pushes among two step lists put one after the other add up.
proof fn lemma_count_concat(a: Seq<(Direction, bool)>, b: Seq<(Direction, bool)>)
    ensures
        count_pushes(a + b) == count_pushes(a) + count_pushes(b),
    decreases b.len(),
{
    if b.len() == 0 {
        assert(a + b =~= a);
    } else {
        lemma_count_concat(a, b.drop_last());
        assert((a + b).drop_last() =~= a + b.drop_last());
        assert((a + b).last() == b.last());
    }
}

/// Walking steps alone make no push.
proof fn lemma_count_walks(s: Seq<(Direction, bool)>)
    requires
        forall|t: int| 0 <= t < s.len() ==> !(#[trigger] s[t]).1,
    ensures
        count_pushes(s) == 0,
    decreases s.len(),
{
    if s.len() > 0 {
        lemma_count_walks(s.drop_last());
    }
}

/// The trailing walking steps are walking steps.
proof fn lemma_trailing_are_walks(steps: Seq<(Direction, bool)>)
    ensures
        trailing_walks(steps) <= steps.len(),
        forall|t: int| steps.len() - trailing_walks(steps) <= t < steps.len() ==> !(#[trigger] steps[t]).1,
    decreases steps.len(),
{
    if steps.len() > 0 && !steps.last().1 {
        lemma_trailing_are_walks(steps.drop_last());
        assert forall|t: int| steps.len() - trailing_walks(steps) <= t < steps.len() implies !(#[trigger] steps[t]).1 by {
            if t < steps.len() - 1 {
                assert(steps[t] == steps.drop_last()[t]);
            }
        }
    }
}

/// Replacing walks keeps the number of pushes.
proof fn lemma_replaced_count(
    cb: &CompiledBoard,
    keeper: int,
    boxes: Seq<(u16, u8)>,
    steps: Seq<(Direction, bool)>,
    out: Seq<(Direction, bool)>,
)
    requires
        walks_replaced(cb, keeper, boxes, steps, out),
    ensures
        count_pushes(out) == count_pushes(steps),
    decreases steps.len(),
{
    if steps.len() == 0 {
    } else if steps.last().1 {
        lemma_replaced_count(cb, keeper, boxes, steps.drop_last(), out.drop_last());
    } else {
        let m = trailing_walks(steps) as int;
        let cut = steps.len() - m;
        lemma_trailing_are_walks(steps);
        let pre = steps.take(cut);
        let start = trace(cb, keeper, boxes, pre);
        let end = trace(cb, keeper, boxes, steps).0;
        let j = choose|j: int|
            0 <= j <= out.len() && #[trigger] run_replaced(
                cb,
                start.0,
                start.1,
                steps.skip(cut),
                end,
                out.skip(out.len() - j),
            ) && walks_replaced(cb, keeper, boxes, pre, out.take(out.len() - j));
        lemma_replaced_count(cb, keeper, boxes, pre, out.take(out.len() - j));
        let run = steps.skip(cut);
        let r = out.skip(out.len() - j);
        assert forall|t: int| 0 <= t < run.len() implies !(#[trigger] run[t]).1 by {
            assert(run[t] == steps[cut + t]);
        }
        lemma_count_walks(run);
        lemma_count_walks(r);
        assert(steps =~= pre + run);
        lemma_count_concat(pre, run);
        assert(out =~= out.take(out.len() - j) + r);
        lemma_count_concat(out.take(out.len() - j), r);
    }
}

/// The steps of a solution as direction and push flag.
pub open spec fn solution_steps(sol: Solution) -> Seq<(Direction, bool)> {
    sol.steps@.map_values(|s: SolutionStep| (s.direction, s.pushed))
}

/// Whether every step starts on a cell of the board, and every push moves a
/// box from a cell of the board (the keeper's track of the steps).
fn steps_on_board(cb: &CompiledBoard, steps: &Vec<(Direction, bool)>) -> (b: bool)
    requires
        cb.wf(),
    ensures
        b == steps_ok(cb, cb.robot_cell as int, start_boxes(cb), steps@),
{
    let ghost b0 = start_boxes(cb);
    let ghost k0 = cb.robot_cell as int;
    let mut keeper: u16 = cb.robot_cell;
    let mut i: usize = 0;
    while i < steps.len()
        invariant
            cb.wf(),
            b0 == start_boxes(cb),
            k0 == cb.robot_cell as int,
            i <= steps@.len(),
            keeper as int == trace(cb, k0, b0, steps@.take(i as int)).0,
            steps_ok(cb, k0, b0, steps@.take(i as int)),
        decreases steps@.len() - i,
    {
        proof {
            assert(steps@.take(i + 1).drop_last() =~= steps@.take(i as int));
        }
        if keeper >= cb.cell_count {
            proof {
                assert(!steps_ok(cb, k0, b0, steps@.take(i + 1)));
                lemma_steps_ok_prefix(cb, k0, b0, steps@, i + 1);
                assert(!steps_ok(cb, k0, b0, steps@));
            }
            return false;
        }
        let (dir, pushed) = steps[i];
        let next = cb.neighbor(keeper, dir);
        if pushed && next >= cb.cell_count {
            proof {
                assert(!steps_ok(cb, k0, b0, steps@.take(i + 1)));
                lemma_steps_ok_prefix(cb, k0, b0, steps@, i + 1);
                assert(!steps_ok(cb, k0, b0, steps@));
            }
            return false;
        }
        keeper = next;
        i += 1;
    }
    proof {
        assert(steps@.take(steps@.len() as int) =~= steps@);
    }
    true
}

/// A prefix of steps on the board is on the board.
proof fn lemma_steps_ok_prefix(
    cb: &CompiledBoard,
    k0: int,
    b0: Seq<(u16, u8)>,
    steps: Seq<(Direction, bool)>,
    i: int,
)
    requires
        0 <= i <= steps.len(),
        !steps_ok(cb, k0, b0, steps.take(i)),
    ensures
        !steps_ok(cb, k0, b0, steps),
    decreases steps.len() - i,
{
    if i < steps.len() {
        assert(steps.take(i + 1).drop_last() =~= steps.take(i));
        lemma_steps_ok_prefix(cb, k0, b0, steps, i + 1);
    } else {
        assert(steps.take(i) =~= steps);
    }
}

/// Replays verified steps and returns the snapshot they end in.
fn replay_steps(board: &ParsedBoard, steps: &Vec<(Direction, bool)>) -> (s: GameSnapshot)
    requires
        replayable(*board),
        steps@.len() <= u32::MAX,
        verify_from(*board, initial_view(*board), steps@, 0) is Ok,
    ensures
        verify_from(*board, initial_view(*board), steps@, 0) == Ok::<SnapshotView, VerificationError>(s@),
{
    let mut current = create_snapshot(board);
    let ghost ss = steps@;
    let mut i: usize = 0;
    while i < steps.len()
        invariant
            ss == steps@,
            ss.len() <= u32::MAX,
            i <= ss.len(),
            replayable(*board),
            current@.moves == i,
            current@.pushes <= current@.moves,
            pos_safe(current@.robot),
            verify_from(*board, initial_view(*board), ss, 0) == verify_from(*board, current@, ss, i as nat),
            verify_from(*board, current@, ss, i as nat) is Ok,
        decreases ss.len() - i,
    {
        let (dir, _) = steps[i];
        proof {
            lemma_safe_step(*board, current@, dir);
        }
        let t = step_snapshot(board, &current, dir);
        current = t.snapshot;
        i += 1;
    }
    current
}

/// Turns pushes into a solution: before each push the keeper walks, by a
/// shortest path around the boxes, to the cell behind the box; the walks
/// are then shortened where possible, and the steps are verified by
/// replaying them through the game rules. Fails when the keeper cannot
/// reach a push position, or when verification fails; either way the
/// verdict is the game's on steps that make exactly these pushes, each after
/// a shortest walk, with the walks shortened as `optimize_walks` does.
pub fn pushes_to_solution(cb: &CompiledBoard, board: &ParsedBoard, pushes: &[(usize, Direction)]) -> (r: Result<
    Solution,
    PushConversionError,
>)
    requires
        cb.wf(),
        replayable(*board),
        moves_ok(cb, start_boxes(cb), pushes@),
        65535 * pushes@.len() <= u32::MAX,
    ensures
        r matches Err(PushConversionError::UnreachablePushPosition) <==> exists|i: int|
            0 <= i < pushes@.len() && !#[trigger] push_reachable(cb, pushes@, i),
        r matches Ok(sol) ==> {
            &&& verify_from(*board, initial_view(*board), solution_steps(sol), 0) == Ok::<
                SnapshotView,
                VerificationError,
            >(sol.final_snapshot@)
            &&& sol.moves == sol.final_snapshot@.moves
            &&& sol.pushes == sol.final_snapshot@.pushes
        },
        r matches Ok(sol) ==> sol.pushes == pushes@.len(),
        r matches Ok(sol) ==> exists|raw: Seq<(Direction, bool)>|
            #[trigger] push_steps(cb, pushes@, raw) && (solution_steps(sol) == raw || walks_replaced(
                cb,
                cb.robot_cell as int,
                start_boxes(cb),
                raw,
                solution_steps(sol),
            )),
        r matches Err(PushConversionError::Verification(e)) ==> exists|raw: Seq<(Direction, bool)>, steps: Seq<(Direction, bool)>|
            #![trigger push_steps(cb, pushes@, raw), verify_from(*board, initial_view(*board), steps, 0)]
            push_steps(cb, pushes@, raw) && (steps == raw || walks_replaced(cb, cb.robot_cell as int, start_boxes(cb), raw, steps))
                && verify_from(*board, initial_view(*board), steps, 0) == Err::<SnapshotView, VerificationError>(e),
{
    proof {
        cb.lemma_wf();
    }
    let ghost start = start_boxes(cb);
    let ghost ps = pushes@;
    let mut steps: Vec<(Direction, bool)> = Vec::new();
    let mut keeper: u16 = cb.robot_cell;
    let mut box_cells = sorted_start_boxes(cb);
    let mut i: usize = 0;
    let ghost mut cuts: Seq<int> = seq![0int];
    while i < pushes.len()
        invariant
            cb.wf(),
            ps == pushes@,
            moves_ok(cb, start, ps),
            65535 * ps.len() <= u32::MAX,
            start == start_boxes(cb),
            i <= ps.len(),
            box_cells@ == boxes_after(cb, start, ps.take(i as int)),
            crate::sorting::pairs_sorted(box_cells@),
            keeper as int == keeper_after(cb, cb.robot_cell as int, start, ps.take(i as int)),
            keeper < cb.cell_count || keeper == INVALID_CELL,
            forall|j: int| 0 <= j < i ==> #[trigger] push_reachable(cb, ps, j),
            steps@.len() <= 65535 * i,
            count_pushes(steps@) == i,
            cuts.len() == i + 1,
            cuts[0] == 0,
            cuts[i as int] == steps@.len(),
            forall|j: int| 0 <= j <= i ==> 0 <= #[trigger] cuts[j] <= steps@.len(),
            forall|j: int| 0 <= j < i ==> #[trigger] push_made(cb, ps, steps@, cuts, j),
        decreases ps.len() - i,
    {
        proof {
            lemma_prefix_ok(cb, start, ps, i + 1);
            assert(ps.take(i + 1).drop_last() =~= ps.take(i as int));
            assert(ps.take(i + 1).last() == ps[i as int]);
            lemma_pairs_sorted_cells(box_cells@);
        }
        let (box_index, push_dir) = pushes[i];
        let box_cell = box_cells[box_index].0;
        let push_from = cb.neighbor(box_cell, push_dir.opposite());
        let walk = match find_keeper_path(cb, keeper, push_from, &box_cells) {
            Some(p) => p,
            None => {
                proof {
                    assert(!push_reachable(cb, ps, i as int));
                }
                return Err(PushConversionError::UnreachablePushPosition);
            },
        };
        proof {
            assert(push_reachable(cb, ps, i as int));
        }
        let mut w: usize = 0;
        let ghost s0 = steps@.len();
        let ghost old_steps = steps@;
        while w < walk.len()
            invariant
                w <= walk@.len(),
                walk@.len() < 65535,
                steps@.len() == s0 + w,
                steps@.take(s0 as int) == old_steps,
                old_steps.len() == s0,
                forall|j: int| 0 <= j < w ==> #[trigger] steps@[s0 + j] == (walk@[j], false),
                count_pushes(steps@) == i,
            decreases walk@.len() - w,
        {
            let ghost sb = steps@;
            steps.push((walk[w], false));
            proof {
                assert(steps@.take(s0 as int) =~= old_steps);
                assert(steps@.drop_last() =~= sb);
            }
            w += 1;
        }
        let ghost mid = steps@;
        steps.push((push_dir, true));
        proof {
            assert(steps@.drop_last() =~= mid);
            let cut = s0 as int;
            let seg = steps@.subrange(cut, steps@.len() - 1);
            assert(seg.len() == walk@.len());
            assert forall|j: int| 0 <= j < seg.len() implies #[trigger] seg[j] == (walk@[j], false) by {
                assert(seg[j] == mid[s0 + j]);
            }
            assert(seg.map_values(|s: (Direction, bool)| s.0) =~= walk@);
            let cuts2 = cuts.push(steps@.len() as int);
            assert forall|k: int| 0 <= k < s0 implies steps@[k] == old_steps[k] by {
                assert(mid.take(s0 as int)[k] == mid[k]);
            }
            assert forall|j: int| 0 <= j < i + 1 implies #[trigger] push_made(cb, ps, steps@, cuts2, j) by {
                if j < i {
                    assert(push_made(cb, ps, old_steps, cuts, j));
                    assert(cuts2[j] == cuts[j] && cuts2[j + 1] == cuts[j + 1]);
                    assert(cuts[j + 1] <= old_steps.len());
                    assert(steps@.subrange(cuts[j], cuts[j + 1] - 1) =~= old_steps.subrange(cuts[j], cuts[j + 1] - 1));
                    assert(steps@[cuts[j + 1] - 1] == old_steps[cuts[j + 1] - 1]);
                } else {
                    assert(cuts2[j] == cut);
                }
            }
            cuts = cuts2;
        }
        let target = cb.neighbor(box_cell, push_dir);
        box_cells = moved_pairs(&box_cells, box_index, target);
        keeper = box_cell;
        proof {
            assert(keeper_after(cb, cb.robot_cell as int, start, ps.take(i + 1)) == box_cell as int);
            assert forall|j: int| 0 <= j < i + 1 implies #[trigger] push_reachable(cb, ps, j) by {}
        }
        i += 1;
    }
    proof {
        assert forall|j: int| 0 <= j < ps.len() implies #[trigger] push_reachable(cb, ps, j) by {}
        assert(steps@.len() <= u32::MAX) by (nonlinear_arith)
            requires
                steps@.len() <= 65535 * ps.len(),
                65535 * ps.len() <= u32::MAX,
        ;
    }
    let ghost raw = steps@;
    proof {
        assert(push_split(cb, ps, raw, cuts));
        assert(push_steps(cb, ps, raw));
    }
    if steps_on_board(cb, &steps) {
        optimize_walks(cb, &mut steps);
    }
    assert(steps@ == raw || walks_replaced(cb, cb.robot_cell as int, start, raw, steps@));
    proof {
        if steps@ != raw {
            lemma_replaced_count(cb, cb.robot_cell as int, start, raw, steps@);
        }
    }
    let (moves, push_count) = match verify_solution(board, &steps) {
        Ok(counts) => counts,
        Err(e) => {
            return Err(PushConversionError::Verification(e));
        },
    };
    let final_snapshot = replay_steps(board, &steps);
    let mut out: Vec<SolutionStep> = Vec::new();
    let mut k: usize = 0;
    while k < steps.len()
        invariant
            k <= steps@.len(),
            out@.len() == k,
            forall|j: int| 0 <= j < k ==> (#[trigger] out@[j]).direction == steps@[j].0 && out@[j].pushed == steps@[j].1,
        decreases steps@.len() - k,
    {
        let (direction, pushed) = steps[k];
        out.push(SolutionStep { direction, pushed });
        k += 1;
    }
    let sol = Solution { steps: out, moves, pushes: push_count, final_snapshot };
    proof {
        assert(solution_steps(sol) =~= steps@);
    }
    Ok(sol)
}

/// What a search ends with: pushes that solve the puzzle (and whether they
/// are known to be optimal), proof that no solution exists, or a spent
/// budget.
pub enum SearchOutcome {
    Solved { pushes: Vec<(usize, Direction)>, optimal: bool },
    Exhausted,
    BudgetExceeded,
}

/// Appends the text of a verification error.
fn push_verification_error(s: &mut String, e: &VerificationError) {
    match e {
        VerificationError::Blocked { step } => {
            push_str_chars(s, "blocked at step ");
            push_decimal(s, *step as u64);
        },
        VerificationError::PushMismatch { step, expected, actual } => {
            push_str_chars(s, "push mismatch at step ");
            push_decimal(s, *step as u64);
            push_str_chars(s, ": expected=");
            push_str_chars(s, if *expected { "true" } else { "false" });
            push_str_chars(s, ", actual=");
            push_str_chars(s, if *actual { "true" } else { "false" });
        },
        VerificationError::NotSolved => {
            push_str_chars(s, "puzzle not solved after replay");
        },
    }
}

/// The status, solution and proof a run reports for the outcome of its
/// search. Pushes not known to be optimal are first improved; the pushes are
/// then turned into a verified solution, with an optimal proof when the
/// search proved optimality and a bounded one otherwise. A failed
/// conversion leaves the run unsolved without proof; an exhausted search
/// reports that no solution exists; a spent budget reports the run
/// cancelled when it was, unsolved otherwise. The reported solution makes
/// no more pushes than the search found, and fewer when they were not known
/// to be optimal and some window of them left the boxes where they were.
pub fn finish_result(
    cb: &CompiledBoard,
    deadlocks: &DeadlockChecker,
    board: &ParsedBoard,
    outcome: SearchOutcome,
    cancelled: bool,
) -> (r: (SolverStatus, Option<Solution>, Option<SolverProof>))
    requires
        cb.wf(),
        replayable(*board),
        outcome matches SearchOutcome::Solved { pushes, optimal } ==> {
            &&& moves_ok(cb, start_boxes(cb), pushes@)
            &&& 65535 * pushes@.len() <= u32::MAX
            &&& !optimal ==> {
                &&& deadlocks.wf(cb)
                &&& pairs_sorted(initial_pairs(cb))
                &&& on_board(cb, initial_pairs(cb))
                &&& cb.initial_box_cells@.len() + MAX_SEGMENT_PUSHES <= u32::MAX
            }
        },
    ensures
        r.0 is Solved <==> r.1 is Some,
        r.1 matches Some(sol) ==> {
            &&& outcome is Solved
            &&& verify_from(*board, initial_view(*board), solution_steps(sol), 0) == Ok::<
                SnapshotView,
                VerificationError,
            >(sol.final_snapshot@)
            &&& sol.moves == sol.final_snapshot@.moves
            &&& sol.pushes == sol.final_snapshot@.pushes
            &&& r.2 matches Some(p)
            &&& r.2->0.upper_bound == sol.pushes
            &&& r.2->0.gap == (if outcome->optimal { 0 } else { sol.pushes })
            &&& outcome->optimal ==> r.2->0.kind == ProofKind::Optimal && r.2->0.lower_bound == sol.pushes
            &&& !outcome->optimal ==> r.2->0.kind == ProofKind::Bounded && r.2->0.lower_bound == 0
        },
        outcome is Solved && r.1 is None ==> r.0 is Unsolved && r.2 is None,
        outcome matches SearchOutcome::Solved { pushes: ps, optimal: opt } ==> (r.1 matches Some(sol) ==> {
            &&& sol.pushes <= ps@.len()
            &&& opt ==> sol.pushes == ps@.len()
            &&& !opt && crate::improvement::push_window::has_idle_window(cb, ps@) ==> sol.pushes < ps@.len()
        }),
        outcome is Exhausted ==> r.0 is Unsolved && r.1 is None && (r.2 matches Some(p) && p.kind
            == ProofKind::Unsolvable && p.lower_bound == u32::MAX && p.upper_bound == u32::MAX && p.gap == 0),
        outcome is BudgetExceeded ==> r.1 is None && r.2 is None && (cancelled ==> r.0 is Cancelled) && (!cancelled
            ==> r.0 is Unsolved),
{
    match outcome {
        SearchOutcome::Solved { mut pushes, optimal } => {
            if !optimal {
                let _report = improve_push_sequence(cb, deadlocks, &mut pushes);
            }
            match pushes_to_solution(cb, board, &pushes) {
                Ok(solution) => {
                    let proof = if optimal {
                        optimal_proof(solution.pushes)
                    } else {
                        bounded_proof(0, solution.pushes)
                    };
                    (SolverStatus::Solved, Some(solution), Some(proof))
                },
                Err(e) => {
                    let mut reason = String::new();
                    push_str_chars(&mut reason, "solution verification failed: ");
                    match e {
                        PushConversionError::UnreachablePushPosition => {
                            push_str_chars(&mut reason, "keeper cannot reach push position");
                        },
                        PushConversionError::Verification(v) => {
                            push_verification_error(&mut reason, &v);
                        },
                    }
                    (SolverStatus::Unsolved { reason }, None, None)
                },
            }
        },
        SearchOutcome::Exhausted => {
            let mut reason = String::new();
            push_str_chars(&mut reason, "search space exhausted \u{2014} no solution exists");
            (SolverStatus::Unsolved { reason }, None, Some(unsolvable_proof()))
        },
        SearchOutcome::BudgetExceeded => {
            if cancelled {
                (SolverStatus::Cancelled, None, None)
            } else {
                let mut reason = String::new();
                push_str_chars(&mut reason, "budget exceeded");
                (SolverStatus::Unsolved { reason }, None, None)
            }
        },
    }
}

} // verus!
