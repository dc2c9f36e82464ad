use vstd::prelude::*;

use crate::bfs::{bfs_moves, move_step, moves};
use crate::compiled_board::{direction_at, nbrs_ok, CompiledBoard, INVALID_CELL};
use crate::graph::{reachable, reaches_in, shortest};
use crate::position::{spec_index, spec_opposite};
use crate::search::successors::opposite_index;

verus! {

broadcast use vstd::std_specs::vec::group_vec_axioms;

/// The cells of the boxes other than box `skip`, among the first `k`, in
/// order.
pub open spec fn other_cells(boxes: Seq<(u16, u8)>, skip: int, k: int) -> Seq<u16>
    decreases k,
{
    if k <= 0 {
        seq![]
    } else {
        let p = other_cells(boxes, skip, k - 1);
        if k - 1 != skip {
            p.push(boxes[k - 1].0)
        } else {
            p
        }
    }
}

/// A box on `x` can be pushed onto `y` while the cells of `obs` are taken:
/// `y` is the neighbour of `x` in some direction, the pusher's cell on the
/// other side is a cell, and neither is taken.
pub open spec fn free_push(nb: Seq<[u16; 4]>, obs: Seq<u16>, x: int, y: int) -> bool {
    exists|d: int|
        0 <= d < 4 && 0 <= x < nb.len() && #[trigger] nb[x]@[d] == y && y != INVALID_CELL && nb[x]@[opposite_index(d)]
            != INVALID_CELL && !obs.contains(y as u16) && !obs.contains(nb[x]@[opposite_index(d)])
}

/// The push graph with the cells of `obs` taken.
pub open spec fn free_pushes(nb: Seq<[u16; 4]>, obs: Seq<u16>) -> spec_fn(int, int) -> bool {
    |x: int, y: int| free_push(nb, obs, x, y)
}

/// Some goal of label group `label` is `k` steps of `step` away from `src`.
pub open spec fn reaches_goal_of(cb: &CompiledBoard, step: spec_fn(int, int) -> bool, src: int, label: u8, k: nat) -> bool {
    exists|g: int|
        0 <= g < cb.goal_cells@.len() && cb.goal_cells@[g].1.0 == label && #[trigger] reaches_in(
            step,
            src,
            cb.goal_cells@[g].0 as int,
            k,
        )
}

/// The least number of steps of `step` from `src` to a goal of label group
/// `label`, or `u32::MAX` when there is no such path.
#[verifier::opaque]
pub open spec fn least_goal_steps(cb: &CompiledBoard, step: spec_fn(int, int) -> bool, src: int, label: u8) -> u32 {
    if exists|k: nat| #[trigger] reaches_goal_of(cb, step, src, label, k) {
        (choose|k: nat|
            #[trigger] reaches_goal_of(cb, step, src, label, k) && forall|j: nat| j < k ==> !#[trigger] reaches_goal_of(cb, step, src, label, j)) as u32
    } else {
        u32::MAX
    }
}

/// The least of the push distances from `cell` to the goals of label group
/// `label` among the first `k` goals, with the others in play not counted
/// (`u32::MAX` when there is no such goal).
pub open spec fn empty_goal_min(cb: &CompiledBoard, cell: u16, label: u8, k: int) -> u32
    decreases k,
{
    if k <= 0 {
        u32::MAX
    } else {
        let m = empty_goal_min(cb, cell, label, k - 1);
        let d = cb.push_dists(k - 1)[cell as int] as u32;
        if cb.goal_cells@[k - 1].1.0 == label && d < m {
            d
        } else {
            m
        }
    }
}

/// The push distance from box `i` to a goal of its label on the empty board.
pub open spec fn empty_distance(cb: &CompiledBoard, boxes: Seq<(u16, u8)>, i: int) -> u32 {
    empty_goal_min(cb, boxes[i].0, boxes[i].1, cb.goal_cells@.len() as int)
}

/// The push distance from box `i` to a goal of its label with the other
/// boxes standing still.
pub open spec fn blocked_distance(cb: &CompiledBoard, boxes: Seq<(u16, u8)>, i: int) -> u32 {
    least_goal_steps(cb, free_pushes(cb.nbrs(), other_cells(boxes, i, boxes.len() as int)), boxes[i].0 as int, boxes[i].1)
}

/// The penalty of box `i`: two when the other boxes lengthen its way to a
/// goal by two pushes or more, or cut it off where the empty board has one.
pub open spec fn box_penalty(cb: &CompiledBoard, boxes: Seq<(u16, u8)>, i: int) -> int {
    penalty_for(empty_distance(cb, boxes, i), blocked_distance(cb, boxes, i))
}

/// The penalty for a way to a goal `e` pushes long on the empty board and
/// `b` pushes long among the other boxes.
pub open spec fn penalty_for(e: u32, b: u32) -> int {
    if e == u32::MAX {
        0
    } else if b > e && b != u32::MAX {
        if b - e >= 2 {
            2
        } else {
            0
        }
    } else if b == u32::MAX {
        2
    } else {
        0
    }
}

/// The penalties of the first `m` boxes.
pub open spec fn penalties_upto(cb: &CompiledBoard, boxes: Seq<(u16, u8)>, m: int) -> int
    decreases m,
{
    if m <= 0 {
        0
    } else {
        penalties_upto(cb, boxes, m - 1) + box_penalty(cb, boxes, m - 1)
    }
}

proof fn lemma_penalties_bound(cb: &CompiledBoard, boxes: Seq<(u16, u8)>, m: int)
    requires
        0 <= m,
    ensures
        0 <= penalties_upto(cb, boxes, m) <= 2 * m,
    decreases m,
{
    if m > 0 {
        lemma_penalties_bound(cb, boxes, m - 1);
    }
}

/// Counts box-box interaction penalties: for every box, two pushes when the
/// other boxes, standing still, lengthen its shortest push path to a goal of
/// its label by two or more, or block it where the empty board has one.
/// Nothing with fewer than two boxes.
pub fn count_interaction_penalties(cb: &CompiledBoard, box_cells: &[(u16, u8)]) -> (r: u32)
    requires
        cb.wf(),
        forall|i: int| 0 <= i < box_cells@.len() ==> (#[trigger] box_cells@[i]).0 < cb.cell_count,
        2 * box_cells@.len() <= u32::MAX,
    ensures
        r == if box_cells@.len() < 2 {
            0
        } else {
            penalties_upto(cb, box_cells@, box_cells@.len() as int)
        },
{
    if box_cells.len() < 2 {
        return 0;
    }
    let mut penalties: u32 = 0;
    let mut i: usize = 0;
    while i < box_cells.len()
        invariant
            cb.wf(),
            forall|q: int| 0 <= q < box_cells@.len() ==> (#[trigger] box_cells@[q]).0 < cb.cell_count,
            2 * box_cells@.len() <= u32::MAX,
            i <= box_cells@.len(),
            penalties == penalties_upto(cb, box_cells@, i as int),
        decreases box_cells@.len() - i,
    {
        proof {
            lemma_penalties_bound(cb, box_cells@, i as int);
        }
        let (box_cell, label) = box_cells[i];
        let empty_dist = nearest_goal_distance_empty(cb, box_cell, label);
        if empty_dist == u32::MAX {
            proof {
                assert(empty_dist == empty_distance(cb, box_cells@, i as int));
            }
            i += 1;
            continue;
        }
        let blocked_dist = nearest_goal_distance_with_boxes(cb, box_cell, label, box_cells, i);
        proof {
            assert(empty_dist == empty_distance(cb, box_cells@, i as int));
            assert(blocked_dist == blocked_distance(cb, box_cells@, i as int));
        }
        if blocked_dist > empty_dist && blocked_dist != u32::MAX {
            let diff = blocked_dist - empty_dist;
            if diff >= 2 {
                penalties = penalties + 2;
            }
        } else if blocked_dist == u32::MAX && empty_dist != u32::MAX {
            penalties = penalties + 2;
        }
        i += 1;
    }
    penalties
}

/// The least push distance on the empty board from `box_cell` to a goal of
/// label group `label` (`u32::MAX` when the board has no such goal).
pub fn nearest_goal_distance_empty(cb: &CompiledBoard, box_cell: u16, label: u8) -> (r: u32)
    requires
        cb.wf(),
        box_cell < cb.cell_count,
    ensures
        r == empty_goal_min(cb, box_cell, label, cb.goal_cells@.len() as int),
{
    let mut min_dist: u32 = u32::MAX;
    let mut gi: usize = 0;
    while gi < cb.goal_cells.len()
        invariant
            cb.wf(),
            box_cell < cb.cell_count,
            gi <= cb.goal_cells@.len(),
            min_dist == empty_goal_min(cb, box_cell, label, gi as int),
        decreases cb.goal_cells@.len() - gi,
    {
        let goal_label = cb.goal_cells[gi].1;
        if goal_label.0 == label {
            let dist = cb.reverse_push_distance(gi, box_cell);
            if (dist as u32) < min_dist {
                min_dist = dist as u32;
            }
        }
        gi += 1;
    }
    min_dist
}

/// Whether `x` is among `v`.
fn contains_u16(v: &Vec<u16>, x: u16) -> (b: bool)
    ensures
        b == v@.contains(x),
{
    let mut i: usize = 0;
    while i < v.len()
        invariant
            i <= v@.len(),
            forall|k: int| 0 <= k < i ==> v@[k] != x,
        decreases v@.len() - i,
    {
        if v[i] == x {
            proof {
                assert(v@[i as int] == x);
            }
            return true;
        }
        i += 1;
    }
    false
}

/// The least number of pushes that bring the box on `box_cell` to a goal of
/// label group `label` while the boxes other than `skip_index` stand still
/// (`u32::MAX` when none is reachable).
fn nearest_goal_distance_with_boxes(cb: &CompiledBoard, box_cell: u16, label: u8, all_boxes: &[(u16, u8)], skip_index: usize) -> (r: u32)
    requires
        cb.wf(),
        box_cell < cb.cell_count,
    ensures
        r == least_goal_steps(
            cb,
            free_pushes(cb.nbrs(), other_cells(all_boxes@, skip_index as int, all_boxes@.len() as int)),
            box_cell as int,
            label,
        ),
{
    proof {
        cb.lemma_wf();
    }
    let ghost nb = cb.nbrs();
    let n = cb.cell_count;
    let mut obstacles: Vec<u16> = Vec::new();
    let mut i: usize = 0;
    while i < all_boxes.len()
        invariant
            i <= all_boxes@.len(),
            obstacles@ == other_cells(all_boxes@, skip_index as int, i as int),
        decreases all_boxes@.len() - i,
    {
        if i != skip_index {
            obstacles.push(all_boxes[i].0);
        }
        i += 1;
    }
    let ghost obs = obstacles@;
    let mut table: Vec<[u16; 4]> = Vec::new();
    let mut c: u16 = 0;
    while c < n
        invariant
            cb.wf(),
            nb == cb.nbrs(),
            n == cb.cell_count,
            nbrs_ok(nb, n as int),
            obs == obstacles@,
            c <= n,
            table@.len() == c,
            forall|x: int, d: int|
                0 <= x < c && 0 <= d < 4 ==> #[trigger] table@[x]@[d] == if nb[x]@[d] != INVALID_CELL && nb[x]@[opposite_index(d)]
                    != INVALID_CELL && !obs.contains(nb[x]@[d]) && !obs.contains(nb[x]@[opposite_index(d)]) {
                    nb[x]@[d]
                } else {
                    INVALID_CELL
                },
        decreases n - c,
    {
        let mut row: [u16; 4] = [INVALID_CELL; 4];
        let mut k: usize = 0;
        while k < 4
            invariant
                cb.wf(),
                nb == cb.nbrs(),
                n == cb.cell_count,
                obs == obstacles@,
                c < n,
                k <= 4,
                forall|d: int|
                    0 <= d < k ==> #[trigger] row@[d] == if nb[c as int]@[d] != INVALID_CELL && nb[c as int]@[opposite_index(d)]
                        != INVALID_CELL && !obs.contains(nb[c as int]@[d]) && !obs.contains(nb[c as int]@[opposite_index(d)]) {
                        nb[c as int]@[d]
                    } else {
                        INVALID_CELL
                    },
                forall|d: int| k <= d < 4 ==> #[trigger] row@[d] == INVALID_CELL,
            decreases 4 - k,
        {
            let dir = direction_at(k);
            let target = cb.neighbor(c, dir);
            let pusher_from = cb.neighbor(c, dir.opposite());
            proof {
                assert(spec_index(spec_opposite(dir)) == opposite_index(k as int));
            }
            let ok = target != INVALID_CELL && pusher_from != INVALID_CELL && !contains_u16(&obstacles, target)
                && !contains_u16(&obstacles, pusher_from);
            if ok {
                row[k] = target;
            }
            k += 1;
        }
        table.push(row);
        c += 1;
    }
    let ghost tb = table@;
    proof {
        assert(nbrs_ok(tb, n as int));
        assert(moves(tb) =~= free_pushes(nb, obs)) by {
            assert forall|x: int, y: int| #[trigger] move_step(tb, x, y) == free_push(nb, obs, x, y) by {
                if move_step(tb, x, y) {
                    let d = choose|d: int| 0 <= d < 4 && 0 <= x < tb.len() && #[trigger] tb[x]@[d] == y && y != INVALID_CELL;
                    assert(tb[x]@[d] == y);
                }
                if free_push(nb, obs, x, y) {
                    let d = choose|d: int|
                        0 <= d < 4 && 0 <= x < nb.len() && #[trigger] nb[x]@[d] == y && y != INVALID_CELL && nb[x]@[opposite_index(
                            d,
                        )] != INVALID_CELL && !obs.contains(y as u16) && !obs.contains(nb[x]@[opposite_index(d)]);
                    assert(tb[x]@[d] == y);
                }
            }
        }
    }
    let dist = bfs_moves(n, &table, box_cell);
    let ghost step = free_pushes(nb, obs);
    let mut min_dist: u32 = u32::MAX;
    let mut best: Ghost<int> = Ghost(-1);
    let mut gi: usize = 0;
    while gi < cb.goal_cells.len()
        invariant
            cb.wf(),
            nb == cb.nbrs(),
            n == cb.cell_count,
            dist@.len() == n,
            step == moves(tb),
            shortest(step, box_cell as int, dist@, n as int, INVALID_CELL as int),
            forall|g: int| 0 <= g < cb.goal_cells@.len() ==> (#[trigger] cb.goal_cells@[g]).0 < n,
            gi <= cb.goal_cells@.len(),
            min_dist == u32::MAX <==> best@ == -1,
            min_dist != u32::MAX ==> 0 <= best@ < gi && cb.goal_cells@[best@].1.0 == label
                && dist@[cb.goal_cells@[best@].0 as int] == min_dist,
            forall|g: int|
                0 <= g < gi && cb.goal_cells@[g].1.0 == label ==> (dist@[(#[trigger] cb.goal_cells@[g]).0 as int] == INVALID_CELL
                    || dist@[cb.goal_cells@[g].0 as int] >= min_dist),
            min_dist == u32::MAX || min_dist < INVALID_CELL,
        decreases cb.goal_cells@.len() - gi,
    {
        let (goal_cell, goal_label) = cb.goal_cells[gi];
        if goal_label.0 == label {
            let raw = dist[goal_cell as usize];
            let d: u32 = if raw == INVALID_CELL {
                u32::MAX
            } else {
                raw as u32
            };
            if d < min_dist {
                min_dist = d;
                best = Ghost(gi as int);
            }
        }
        gi += 1;
    }
    proof {
        reveal(least_goal_steps);
        let src = box_cell as int;
        if min_dist == u32::MAX {
            assert forall|k: nat| !#[trigger] reaches_goal_of(cb, step, src, label, k) by {
                if reaches_goal_of(cb, step, src, label, k) {
                    let g = choose|g: int|
                        0 <= g < cb.goal_cells@.len() && cb.goal_cells@[g].1.0 == label && #[trigger] reaches_in(
                            step,
                            src,
                            cb.goal_cells@[g].0 as int,
                            k,
                        );
                    assert(reachable(step, src, cb.goal_cells@[g].0 as int));
                    assert(dist@[cb.goal_cells@[g].0 as int] != INVALID_CELL);
                }
            }
        } else {
            let gb = best@;
            let m = min_dist as nat;
            assert(reaches_in(step, src, cb.goal_cells@[gb].0 as int, m));
            assert(reaches_goal_of(cb, step, src, label, m));
            assert forall|j: nat| j < m implies !#[trigger] reaches_goal_of(cb, step, src, label, j) by {
                if reaches_goal_of(cb, step, src, label, j) {
                    let g = choose|g: int|
                        0 <= g < cb.goal_cells@.len() && cb.goal_cells@[g].1.0 == label && #[trigger] reaches_in(
                            step,
                            src,
                            cb.goal_cells@[g].0 as int,
                            j,
                        );
                    let gc = cb.goal_cells@[g].0 as int;
                    assert(reachable(step, src, gc));
                    assert(dist@[gc] != INVALID_CELL);
                    assert(dist@[gc] >= min_dist);
                    assert(!reaches_in(step, src, gc, j));
                }
            }
            let k2 = choose|k: nat|
                #[trigger] reaches_goal_of(cb, step, src, label, k) && forall|j: nat| j < k ==> !#[trigger] reaches_goal_of(cb, step, src, label, j);
            assert(reaches_goal_of(cb, step, src, label, k2));
            if k2 < m {
                assert(!reaches_goal_of(cb, step, src, label, k2));
            }
            if m < k2 {
                assert(!reaches_goal_of(cb, step, src, label, m));
            }
            assert(k2 == m);
        }
    }
    min_dist
}

} // verus!
