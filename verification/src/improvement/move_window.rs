use vstd::prelude::*;

use crate::compiled_board::{CompiledBoard, INVALID_CELL};
use crate::dense_state::lemma_pairs_sorted_cells;
use crate::graph::reaches_in;
use crate::improvement::box_rescheduling::saving;
use crate::improvement::{ahead, moved_pairs, sorted_start_boxes, start_boxes};
use crate::position::Direction;
use crate::reachability::{distance_is, find_keeper_path, follow, walks};
use crate::sorting::{pair_order, pairs_sorted};

verus! {

broadcast use vstd::std_specs::vec::group_vec_axioms;

/// The first place among the first `k` boxes of a box on cell `c`.
pub open spec fn first_box_upto(boxes: Seq<(u16, u8)>, c: int, k: int) -> Option<int>
    decreases k,
{
    if k <= 0 {
        None
    } else {
        match first_box_upto(boxes, c, k - 1) {
            Some(i) => Some(i),
            None => if boxes[k - 1].0 == c {
                Some(k - 1)
            } else {
                None
            },
        }
    }
}

/// The boxes after a push of the box on `cell` onto `target`, sorted again;
/// unchanged when no box stands on `cell`.
pub open spec fn push_moves_box(boxes: Seq<(u16, u8)>, cell: int, target: int) -> Seq<(u16, u8)> {
    match first_box_upto(boxes, cell, boxes.len() as int) {
        Some(i) => boxes.update(i, (target as u16, boxes[i].1)).sort_by(pair_order()),
        None => boxes,
    }
}

/// The keeper's cell and the boxes after the steps: every step moves the
/// keeper to the next cell, and a push moves the box there one cell further.
pub open spec fn trace(cb: &CompiledBoard, keeper: int, boxes: Seq<(u16, u8)>, steps: Seq<(Direction, bool)>) -> (
    int,
    Seq<(u16, u8)>,
)
    decreases steps.len(),
{
    if steps.len() == 0 {
        (keeper, boxes)
    } else {
        let (k, b) = trace(cb, keeper, boxes, steps.drop_last());
        let d = steps.last().0;
        let n = ahead(cb, k, d) as int;
        if steps.last().1 {
            (n, push_moves_box(b, n, ahead(cb, n, d) as int))
        } else {
            (n, b)
        }
    }
}

/// Every step starts on a cell of the board, and a push moves a box from a
/// cell of the board.
pub open spec fn steps_ok(cb: &CompiledBoard, keeper: int, boxes: Seq<(u16, u8)>, steps: Seq<(Direction, bool)>) -> bool
    decreases steps.len(),
{
    steps.len() == 0 || (steps_ok(cb, keeper, boxes, steps.drop_last()) && {
        let k = trace(cb, keeper, boxes, steps.drop_last()).0;
        &&& 0 <= k < cb.cell_count
        &&& steps.last().1 ==> ahead(cb, k, steps.last().0) < cb.cell_count
    })
}

/// The number of walking steps at the end of `steps`.
pub open spec fn trailing_walks(steps: Seq<(Direction, bool)>) -> nat
    decreases steps.len(),
{
    if steps.len() == 0 || steps.last().1 {
        0
    } else {
        1 + trailing_walks(steps.drop_last())
    }
}

/// The directions of the steps.
pub open spec fn dirs_of(steps: Seq<(Direction, bool)>) -> Seq<Direction> {
    steps.map_values(|s: (Direction, bool)| s.0)
}

/// `r` stands for the walk `run` from `k` to `end` among `boxes`: it is the
/// walk itself, or a shorter one that leads there around the boxes in as few
/// steps as any.
pub open spec fn run_replaced(
    cb: &CompiledBoard,
    k: int,
    boxes: Seq<(u16, u8)>,
    run: Seq<(Direction, bool)>,
    end: int,
    r: Seq<(Direction, bool)>,
) -> bool {
    ||| r == run
    ||| {
        &&& r.len() < run.len()
        &&& forall|t: int| 0 <= t < r.len() ==> !(#[trigger] r[t]).1
        &&& follow(cb.nbrs(), boxes, k, dirs_of(r)) == Some(end)
        &&& distance_is(walks(cb.nbrs(), boxes), k, end, r.len() as nat)
    }
}

/// `out` is `steps` with every maximal run of walking steps replaced as
/// `run_replaced` allows, the pushes kept.
pub open spec fn walks_replaced(
    cb: &CompiledBoard,
    keeper: int,
    boxes: Seq<(u16, u8)>,
    steps: Seq<(Direction, bool)>,
    out: Seq<(Direction, bool)>,
) -> bool
    decreases steps.len(),
{
    if steps.len() == 0 {
        out.len() == 0
    } else if steps.last().1 {
        &&& out.len() > 0
        &&& out.last() == steps.last()
        &&& walks_replaced(cb, keeper, boxes, steps.drop_last(), out.drop_last())
    } else {
        let m = trailing_walks(steps) as int;
        let cut = steps.len() - m;
        if 0 <= cut < steps.len() {
            let pre = steps.take(cut);
            let start = trace(cb, keeper, boxes, pre);
            let end = trace(cb, keeper, boxes, steps).0;
            exists|j: int|
                0 <= j <= out.len() && #[trigger] run_replaced(
                    cb,
                    start.0,
                    start.1,
                    steps.skip(cut),
                    end,
                    out.skip(out.len() - j),
                ) && walks_replaced(cb, keeper, boxes, pre, out.take(out.len() - j))
        } else {
            false
        }
    }
}

/// The steps from `a` up to `i` are walks, after a push or at the start:
/// they are the walks at the end of the first `i` steps.
proof fn lemma_trailing_run(steps: Seq<(Direction, bool)>, a: int, i: int)
    requires
        0 <= a <= i <= steps.len(),
        a == 0 || steps[a - 1].1,
        forall|t: int| a <= t < i ==> !(#[trigger] steps[t]).1,
    ensures
        trailing_walks(steps.take(i)) == i - a,
    decreases i - a,
{
    if i > a {
        lemma_trailing_run(steps, a, i - 1);
        assert(steps.take(i).drop_last() =~= steps.take(i - 1));
        assert(steps.take(i).last() == steps[i - 1]);
    } else if a > 0 {
        assert(steps.take(a).last() == steps[a - 1]);
    }
}


/// A run of walks at the end, replaced, extends the replacement of the steps
/// before it.
proof fn lemma_extend_run(
    cb: &CompiledBoard,
    keeper: int,
    boxes: Seq<(u16, u8)>,
    steps: Seq<(Direction, bool)>,
    out: Seq<(Direction, bool)>,
    cut: int,
    j: int,
)
    requires
        0 <= cut < steps.len(),
        !steps.last().1,
        trailing_walks(steps) == steps.len() - cut,
        0 <= j <= out.len(),
        run_replaced(
            cb,
            trace(cb, keeper, boxes, steps.take(cut)).0,
            trace(cb, keeper, boxes, steps.take(cut)).1,
            steps.skip(cut),
            trace(cb, keeper, boxes, steps).0,
            out.skip(out.len() - j),
        ),
        walks_replaced(cb, keeper, boxes, steps.take(cut), out.take(out.len() - j)),
    ensures
        walks_replaced(cb, keeper, boxes, steps, out),
{
}

/// The place of the first box on `cell`, or `None`.
fn first_box_at(boxes: &Vec<(u16, u8)>, cell: u16) -> (r: Option<usize>)
    ensures
        r matches Some(i) ==> first_box_upto(boxes@, cell as int, boxes@.len() as int) == Some(i as int) && i
            < boxes@.len(),
        r is None ==> first_box_upto(boxes@, cell as int, boxes@.len() as int) is None,
{
    let mut i: usize = 0;
    while i < boxes.len()
        invariant
            i <= boxes@.len(),
            first_box_upto(boxes@, cell as int, i as int) is None,
        decreases boxes@.len() - i,
    {
        if boxes[i].0 == cell {
            proof {
                lemma_first_box_stays(boxes@, cell as int, i + 1, boxes@.len() as int);
            }
            return Some(i);
        }
        i += 1;
    }
    None
}

proof fn lemma_first_box_stays(boxes: Seq<(u16, u8)>, c: int, i: int, k: int)
    requires
        0 < i <= k,
        first_box_upto(boxes, c, i) is Some,
    ensures
        first_box_upto(boxes, c, k) == first_box_upto(boxes, c, i),
    decreases k - i,
{
    if k > i {
        lemma_first_box_stays(boxes, c, i, k - 1);
    }
}

/// Replaces every run of walking steps between pushes by a shortest walk
/// of the keeper around the boxes as they stand then, when that is shorter;
/// pushes are kept as they are. Returns the number of steps saved.
pub fn optimize_walks(cb: &CompiledBoard, steps: &mut Vec<(Direction, bool)>) -> (saved: u32)
    requires
        cb.wf(),
        steps_ok(cb, cb.robot_cell as int, start_boxes(cb), old(steps)@),
    ensures
        walks_replaced(cb, cb.robot_cell as int, start_boxes(cb), old(steps)@, final(steps)@),
        final(steps)@.len() <= old(steps)@.len(),
        saved == saving(#[verifier::truncate] (old(steps)@.len() as u32) as int, #[verifier::truncate] (final(steps)@.len() as u32) as int),
{
    proof {
        cb.lemma_wf();
    }
    let ghost k0 = cb.robot_cell as int;
    let ghost b0 = start_boxes(cb);
    let ghost input = steps@;
    let initial_len = #[verifier::truncate] (steps.len() as u32);
    let mut optimized: Vec<(Direction, bool)> = Vec::new();
    let mut box_cells = sorted_start_boxes(cb);
    let mut keeper = cb.robot_cell;
    let n = steps.len();
    let mut i: usize = 0;
    proof {
        assert(input.take(0) =~= Seq::<(Direction, bool)>::empty());
    }
    while i < n
        invariant
            cb.wf(),
            crate::compiled_board::nbrs_ok(cb.nbrs(), cb.cell_count as int),
            k0 == cb.robot_cell as int,
            b0 == start_boxes(cb),
            input == steps@,
            n == input.len(),
            steps_ok(cb, k0, b0, input),
            i <= n,
            i < n && !input[i as int].1 ==> i == 0 || input[i - 1].1,
            (keeper as int, box_cells@) == trace(cb, k0, b0, input.take(i as int)),
            pairs_sorted(box_cells@),
            walks_replaced(cb, k0, b0, input.take(i as int), optimized@),
            optimized@.len() <= i,
        decreases n - i,
    {
        proof {
            lemma_steps_ok_prefix(cb, k0, b0, input, i + 1);
            assert(input.take(i + 1).drop_last() =~= input.take(i as int));
            assert(input.take(i + 1).last() == input[i as int]);
        }
        if steps[i].1 {
            let dir = steps[i].0;
            let box_cell = cb.neighbor(keeper, dir);
            let target = cb.neighbor(box_cell, dir);
            match first_box_at(&box_cells, box_cell) {
                Some(idx) => {
                    let v = moved_pairs(&box_cells, idx, target);
                    box_cells = v;
                },
                None => {},
            }
            let ghost before = optimized@;
            optimized.push((dir, true));
            proof {
                assert(optimized@.drop_last() =~= before);
                assert(input[i as int] == (dir, true));
                assert(walks_replaced(cb, k0, b0, input.take(i + 1), optimized@));
            }
            keeper = box_cell;
            i += 1;
        } else {
            let walk_start = keeper;
            let mut walk_end = keeper;
            let seg_start = i;
            let ghost boxes_here = box_cells@;
            while i < n && !steps[i].1
                invariant
                    cb.wf(),
                    crate::compiled_board::nbrs_ok(cb.nbrs(), cb.cell_count as int),
                    input == steps@,
                    n == input.len(),
                    steps_ok(cb, k0, b0, input),
                    seg_start <= i <= n,
                    forall|t: int| seg_start <= t < i ==> !(#[trigger] input[t]).1,
                    (walk_end as int, boxes_here) == trace(cb, k0, b0, input.take(i as int)),
                decreases n - i,
            {
                proof {
                    lemma_steps_ok_prefix(cb, k0, b0, input, i + 1);
                    assert(input.take(i + 1).drop_last() =~= input.take(i as int));
                    assert(input.take(i + 1).last() == input[i as int]);
                }
                walk_end = cb.neighbor(walk_end, steps[i].0);
                i += 1;
            }
            proof {
                lemma_pairs_sorted_cells(box_cells@);
                lemma_trailing_run(input, seg_start as int, i as int);
            }
            let run_len = i - seg_start;
            let ghost before = optimized@;
            let ghost cur = input.take(i as int);
            let ghost run = input.subrange(seg_start as int, i as int);
            proof {
                assert(cur.take(seg_start as int) =~= input.take(seg_start as int));
                assert(cur.skip(seg_start as int) =~= run);
                assert(cur.last() == input[i - 1]);
            }
            let path = find_keeper_path(cb, walk_start, walk_end, &box_cells);
            let use_path = match &path {
                Some(p) => p.len() < run_len,
                None => false,
            };
            if use_path {
                let p = path.unwrap();
                let mut t: usize = 0;
                while t < p.len()
                    invariant
                        t <= p@.len(),
                        optimized@ == before + p@.take(t as int).map_values(|d: Direction| (d, false)),
                    decreases p@.len() - t,
                {
                    optimized.push((p[t], false));
                    proof {
                        assert(p@.take(t + 1).map_values(|d: Direction| (d, false)) =~= p@.take(t as int).map_values(
                            |d: Direction| (d, false),
                        ).push((p@[t as int], false)));
                    }
                    t += 1;
                }
                proof {
                    assert(p@.take(t as int) =~= p@);
                    let r = p@.map_values(|d: Direction| (d, false));
                    assert(dirs_of(r) =~= p@);
                    let j = r.len() as int;
                    assert(optimized@.skip(optimized@.len() - j) =~= r);
                    assert(optimized@.take(optimized@.len() - j) =~= before);
                    if walk_start == walk_end {
                        crate::graph::lemma_reaches_self(walks(cb.nbrs(), boxes_here), walk_start as int);
                    }
                    assert(run_replaced(cb, walk_start as int, boxes_here, run, walk_end as int, r));
                    lemma_extend_run(cb, k0, b0, cur, optimized@, seg_start as int, j);
                }
            } else {
                let mut t: usize = seg_start;
                while t < i
                    invariant
                        seg_start <= t <= i <= n,
                        input == steps@,
                        n == input.len(),
                        optimized@ == before + input.subrange(seg_start as int, t as int),
                    decreases i - t,
                {
                    optimized.push(steps[t]);
                    proof {
                        assert(input.subrange(seg_start as int, t + 1) =~= input.subrange(seg_start as int, t as int).push(
                            input[t as int],
                        ));
                    }
                    t += 1;
                }
                proof {
                    let j = run.len() as int;
                    assert(optimized@.skip(optimized@.len() - j) =~= run);
                    assert(optimized@.take(optimized@.len() - j) =~= before);
                    assert(run_replaced(cb, walk_start as int, boxes_here, run, walk_end as int, run));
                    lemma_extend_run(cb, k0, b0, cur, optimized@, seg_start as int, j);
                }
            }
            keeper = walk_end;
        }
    }
    proof {
        assert(input.take(n as int) =~= input);
    }
    let ghost out = optimized@;
    *steps = optimized;
    let final_len = #[verifier::truncate] (steps.len() as u32);
    if initial_len > final_len {
        initial_len - final_len
    } else {
        0
    }
}

/// A prefix of steps that start on cells of the board does too.
proof fn lemma_steps_ok_prefix(cb: &CompiledBoard, keeper: int, boxes: Seq<(u16, u8)>, steps: Seq<(Direction, bool)>, i: int)
    requires
        steps_ok(cb, keeper, boxes, steps),
        0 <= i <= steps.len(),
    ensures
        steps_ok(cb, keeper, boxes, steps.take(i)),
    decreases steps.len() - i,
{
    if i < steps.len() {
        lemma_steps_ok_prefix(cb, keeper, boxes, steps, i + 1);
        assert(steps.take(i + 1).drop_last() =~= steps.take(i));
    } else {
        assert(steps.take(i) =~= steps);
    }
}

} // verus!
