use vstd::prelude::*;

use crate::compiled_board::{CompiledBoard, INVALID_CELL};
use crate::graph::{lemma_closed_reach, lemma_reaches_self, lemma_reaches_step, reachable, reaches_in};
use crate::position::Direction;
use std::collections::VecDeque;

verus! {

broadcast use vstd::std_specs::vec::group_vec_axioms;

/// The box list is sorted by cell.
pub open spec fn sorted_cells(boxes: Seq<(u16, u8)>) -> bool {
    forall|i: int, j: int| 0 <= i <= j < boxes.len() ==> (#[trigger] boxes[i]).0 <= (#[trigger] boxes[j]).0
}

/// Some box stands on cell `c`.
pub open spec fn has_cell(boxes: Seq<(u16, u8)>, c: int) -> bool {
    exists|i: int| 0 <= i < boxes.len() && (#[trigger] boxes[i]).0 == c
}

/// The keeper can walk from cell `x` to the neighbouring cell `y`, which no
/// box occupies.
pub open spec fn walk_step(nbrs: Seq<[u16; 4]>, boxes: Seq<(u16, u8)>, x: int, y: int) -> bool {
    exists|d: int|
        0 <= d < 4 && 0 <= x < nbrs.len() && 0 <= y < nbrs.len() && #[trigger] nbrs[x]@[d] == y && !has_cell(
            boxes,
            y,
        )
}

/// The walking graph of the keeper among the boxes.
pub open spec fn walks(nbrs: Seq<[u16; 4]>, boxes: Seq<(u16, u8)>) -> spec_fn(int, int) -> bool {
    |x: int, y: int| walk_step(nbrs, boxes, x, y)
}

/// Cell `x` waits in the queue `q`.
spec fn in_queue(q: Seq<u16>, x: int) -> bool {
    exists|i: int| 0 <= i < q.len() && q[i] == x
}

/// How many entries of `s` are still unset.
spec fn unset_count(s: Seq<bool>) -> nat
    decreases s.len(),
{
    if s.len() == 0 {
        0
    } else {
        unset_count(s.drop_last()) + if s.last() {
            0nat
        } else {
            1nat
        }
    }
}

proof fn lemma_unset_count_set(s: Seq<bool>, i: int)
    requires
        0 <= i < s.len(),
        !s[i],
    ensures
        unset_count(s.update(i, true)) + 1 == unset_count(s),
    decreases s.len(),
{
    if i < s.len() - 1 {
        lemma_unset_count_set(s.drop_last(), i);
        assert(s.update(i, true).drop_last() =~= s.drop_last().update(i, true));
    } else {
        assert(s.update(i, true).drop_last() =~= s.drop_last());
    }
}

/// Whether a box of the sorted list stands on `cell` (binary search).
pub fn contains_cell(box_cells: &[(u16, u8)], cell: u16) -> (found: bool)
    requires
        sorted_cells(box_cells@),
    ensures
        found == has_cell(box_cells@, cell as int),
{
    let mut lo: usize = 0;
    let mut hi: usize = box_cells.len();
    while lo < hi
        invariant
            0 <= lo <= hi <= box_cells@.len(),
            sorted_cells(box_cells@),
            forall|i: int| 0 <= i < lo ==> (#[trigger] box_cells@[i]).0 < cell,
            forall|i: int| hi <= i < box_cells@.len() ==> (#[trigger] box_cells@[i]).0 > cell,
        decreases hi - lo,
    {
        let mid = lo + (hi - lo) / 2;
        let c = box_cells[mid].0;
        if c == cell {
            return true;
        } else if c < cell {
            proof {
                assert forall|i: int| 0 <= i < mid + 1 implies (#[trigger] box_cells@[i]).0 < cell by {
                    assert(box_cells@[i].0 <= box_cells@[mid as int].0);
                }
            }
            lo = mid + 1;
        } else {
            proof {
                assert forall|i: int| mid <= i < box_cells@.len() implies (#[trigger] box_cells@[i]).0 > cell by {
                    assert(box_cells@[mid as int].0 <= box_cells@[i].0);
                }
            }
            hi = mid;
        }
    }
    false
}

/// The state of a breadth-first walk from `start` over `visited`: marked
/// cells are reachable, queued cells are marked, and a marked cell out of the
/// queue has all its walking neighbours marked.
spec fn walk_search(
    nb: Seq<[u16; 4]>,
    boxes: Seq<(u16, u8)>,
    start: int,
    visited: Seq<bool>,
    queue: Seq<u16>,
) -> bool {
    let n = nb.len() as int;
    &&& visited.len() == n
    &&& 0 <= start < n
    &&& visited[start]
    &&& forall|i: int| 0 <= i < queue.len() ==> (#[trigger] queue[i]) < n && visited[queue[i] as int]
    &&& forall|x: int| 0 <= x < n && #[trigger] visited[x] ==> reachable(walks(nb, boxes), start, x)
    &&& forall|x: int, y: int|
        0 <= x < n && visited[x] && !in_queue(queue, x) && #[trigger] walk_step(nb, boxes, x, y) ==> visited[y]
}

/// All cells the keeper can reach from `start` without moving a box, as a
/// table indexed by cell (all unset when `start` is `INVALID_CELL`).
/// `box_cells` is sorted by cell.
pub fn keeper_reachable(cb: &CompiledBoard, start: u16, box_cells: &[(u16, u8)]) -> (visited: Vec<bool>)
    requires
        cb.wf(),
        start < cb.cell_count || start == INVALID_CELL,
        sorted_cells(box_cells@),
    ensures
        visited@.len() == cb.cell_count,
        forall|c: int|
            0 <= c < cb.cell_count ==> #[trigger] visited@[c] == (start != INVALID_CELL && reachable(
                walks(cb.nbrs(), box_cells@),
                start as int,
                c,
            )),
{
    proof {
        cb.lemma_wf();
    }
    let ghost nb = cb.nbrs();
    let ghost boxes = box_cells@;
    let ghost n = cb.cell_count as int;
    let mut visited: Vec<bool> = vec![false; cb.cell_count as usize];
    if start == INVALID_CELL {
        return visited;
    }
    let mut queue: VecDeque<u16> = VecDeque::new();
    proof {
        lemma_reaches_self(walks(nb, boxes), start as int);
        lemma_unset_count_set(visited@, start as int);
    }
    visited.set(start as usize, true);
    queue.push_back(start);
    proof {
        assert(queue@[0] == start);
        assert(in_queue(queue@, start as int));
    }
    loop
        invariant
            cb.wf(),
            nb == cb.nbrs(),
            n == cb.cell_count,
            boxes == box_cells@,
            sorted_cells(boxes),
            crate::compiled_board::nbrs_ok(nb, n),
            walk_search(nb, boxes, start as int, visited@, queue@),
        ensures
            queue@.len() == 0,
        decreases 2 * unset_count(visited@) + queue@.len(),
    {
        let ghost measure = 2 * unset_count(visited@) + queue@.len();
        let ghost q0 = queue@;
        match queue.pop_front() {
            None => {
                break;
            },
            Some(cell) => {
                proof {
                    assert(q0[0] == cell);
                    assert(queue@ =~= q0.drop_first());
                    assert forall|x: int| x != cell && !in_queue(queue@, x) implies !in_queue(q0, x) by {
                        if in_queue(q0, x) {
                            let i = choose|i: int| 0 <= i < q0.len() && q0[i] == x;
                            assert(queue@[i - 1] == x);
                        }
                    }
                }
                let mut k: usize = 0;
                while k < 4
                    invariant
                        cb.wf(),
                        nb == cb.nbrs(),
                        n == cb.cell_count,
                        boxes == box_cells@,
                        sorted_cells(boxes),
                        crate::compiled_board::nbrs_ok(nb, n),
                        cell < n,
                        visited@[cell as int],
                        0 <= k <= 4,
                        visited@.len() == n,
                        0 <= start < n,
                        visited@[start as int],
                        2 * unset_count(visited@) + queue@.len() < measure,
                        forall|i: int| 0 <= i < queue@.len() ==> (#[trigger] queue@[i]) < n && visited@[queue@[i] as int],
                        forall|x: int| 0 <= x < n && #[trigger] visited@[x] ==> reachable(walks(nb, boxes), start as int, x),
                        forall|x: int, y: int|
                            0 <= x < n && x != cell && visited@[x] && !in_queue(queue@, x) && #[trigger] walk_step(nb, boxes, x, y)
                                ==> visited@[y],
                        forall|j: int|
                            0 <= j < k && (#[trigger] nb[cell as int]@[j]) != INVALID_CELL && !has_cell(
                                boxes,
                                nb[cell as int]@[j] as int,
                            ) ==> visited@[nb[cell as int]@[j] as int],
                    decreases 4 - k,
                {
                    let dir = crate::compiled_board::direction_at(k);
                    let next = cb.neighbor(cell, dir);
                    if next != INVALID_CELL && !visited[next as usize] {
                        if !contains_cell(box_cells, next) {
                            proof {
                                assert(nb[cell as int]@[k as int] == next);
                                assert(walk_step(nb, boxes, cell as int, next as int));
                                assert(reachable(walks(nb, boxes), start as int, cell as int));
                                let kk = choose|kk: nat| #[trigger] reaches_in(walks(nb, boxes), start as int, cell as int, kk);
                                lemma_reaches_step(walks(nb, boxes), start as int, cell as int, next as int, kk);
                                assert(reachable(walks(nb, boxes), start as int, next as int));
                                lemma_unset_count_set(visited@, next as int);
                            }
                            let ghost before = visited@;
                            visited.set(next as usize, true);
                            let ghost qb = queue@;
                            queue.push_back(next);
                            proof {
                                assert forall|x: int| 0 <= x < n && #[trigger] visited@[x] implies reachable(
                                    walks(nb, boxes),
                                    start as int,
                                    x,
                                ) by {
                                    if x != next {
                                        assert(before[x]);
                                    }
                                }
                                assert forall|x: int, y: int|
                                    0 <= x < n && x != cell && visited@[x] && !in_queue(queue@, x) && #[trigger] walk_step(
                                        nb,
                                        boxes,
                                        x,
                                        y,
                                    ) implies visited@[y] by {
                                    if x != next {
                                        if in_queue(qb, x) {
                                            let i = choose|i: int| 0 <= i < qb.len() && qb[i] == x;
                                            assert(queue@[i] == x);
                                        }
                                        assert(before[y]);
                                    } else {
                                        assert(queue@[queue@.len() - 1] == x);
                                    }
                                }
                                assert forall|i: int| 0 <= i < queue@.len() implies (#[trigger] queue@[i]) < n
                                    && visited@[queue@[i] as int] by {
                                    if i < queue@.len() - 1 {
                                        assert(queue@[i] == qb[i]);
                                    }
                                }
                            }
                        }
                    }
                    k += 1;
                }
                proof {
                    assert forall|x: int, y: int|
                        0 <= x < n && visited@[x] && !in_queue(queue@, x) && #[trigger] walk_step(nb, boxes, x, y)
                            implies visited@[y] by {
                        if x == cell {
                            let j = choose|j: int|
                                0 <= j < 4 && 0 <= x < nb.len() && 0 <= y < nb.len() && #[trigger] nb[x]@[j] == y
                                    && !has_cell(boxes, y);
                            assert(nb[cell as int]@[j] == y);
                        }
                    }
                }
            },
        }
    }
    proof {
        let step = walks(nb, boxes);
        let inside = |x: int| 0 <= x < n && visited@[x];
        assert forall|x: int, y: int| inside(x) && #[trigger] step(x, y) implies inside(y) by {
            assert(walk_step(nb, boxes, x, y));
            assert(!in_queue(queue@, x));
        }
        assert forall|c: int| 0 <= c < n implies #[trigger] visited@[c] == reachable(step, start as int, c) by {
            if reachable(step, start as int, c) {
                lemma_closed_reach(step, inside, start as int, c);
            }
        }
    }
    visited
}


/// The least cell the keeper can reach from `start` without moving a box:
/// the canonical representative of its region; `start` itself when it is
/// `INVALID_CELL`. `box_cells` is sorted by cell.
pub fn canonical_keeper(cb: &CompiledBoard, start: u16, box_cells: &[(u16, u8)]) -> (c: u16)
    requires
        cb.wf(),
        start < cb.cell_count || start == INVALID_CELL,
        sorted_cells(box_cells@),
    ensures
        start == INVALID_CELL ==> c == INVALID_CELL,
        start != INVALID_CELL ==> {
            &&& c < cb.cell_count
            &&& c <= start
            &&& reachable(walks(cb.nbrs(), box_cells@), start as int, c as int)
            &&& forall|x: int| 0 <= x < c ==> !reachable(walks(cb.nbrs(), box_cells@), start as int, x)
        },
{
    let reach = keeper_reachable(cb, start, box_cells);
    proof {
        if start != INVALID_CELL {
            lemma_reaches_self(walks(cb.nbrs(), box_cells@), start as int);
            assert(reach@[start as int]);
        }
    }
    let mut i: usize = 0;
    while i < reach.len()
        invariant
            reach@.len() == cb.cell_count,
            i <= reach@.len(),
            forall|c: int|
                0 <= c < cb.cell_count ==> #[trigger] reach@[c] == (start != INVALID_CELL && reachable(
                    walks(cb.nbrs(), box_cells@),
                    start as int,
                    c,
                )),
            start != INVALID_CELL ==> i <= start && reach@[start as int],
            forall|x: int| 0 <= x < i ==> !reach@[x],
        decreases reach@.len() - i,
    {
        if reach[i] {
            proof {
                assert(reach@[i as int]);
                assert(i <= start);
                assert forall|x: int| 0 <= x < i implies !reachable(walks(cb.nbrs(), box_cells@), start as int, x) by {
                    assert(!reach@[x]);
                }
            }
            return i as u16;
        }
        i += 1;
    }
    start
}

/// Whether the keeper can walk from `start` to `target` without moving a
/// box. `box_cells` is sorted by cell.
pub fn can_reach(cb: &CompiledBoard, start: u16, target: u16, box_cells: &[(u16, u8)]) -> (b: bool)
    requires
        cb.wf(),
        start < cb.cell_count || start == INVALID_CELL,
        sorted_cells(box_cells@),
    ensures
        b == (start == target || (start != INVALID_CELL && target != INVALID_CELL && reachable(
            walks(cb.nbrs(), box_cells@),
            start as int,
            target as int,
        ))),
{
    if start == target {
        return true;
    }
    if start == INVALID_CELL || target == INVALID_CELL {
        return false;
    }
    proof {
        cb.lemma_wf();
    }
    let ghost nb = cb.nbrs();
    let ghost boxes = box_cells@;
    let ghost n = cb.cell_count as int;
    let mut visited: Vec<bool> = vec![false; cb.cell_count as usize];
    let mut queue: VecDeque<u16> = VecDeque::new();
    proof {
        lemma_reaches_self(walks(nb, boxes), start as int);
        lemma_unset_count_set(visited@, start as int);
    }
    visited.set(start as usize, true);
    queue.push_back(start);
    proof {
        assert(queue@[0] == start);
        assert(in_queue(queue@, start as int));
    }
    loop
        invariant
            cb.wf(),
            nb == cb.nbrs(),
            n == cb.cell_count,
            boxes == box_cells@,
            sorted_cells(boxes),
            crate::compiled_board::nbrs_ok(nb, n),
            start != target,
            target != INVALID_CELL,
            walk_search(nb, boxes, start as int, visited@, queue@),
            target < n ==> !visited@[target as int],
        ensures
            queue@.len() == 0,
        decreases 2 * unset_count(visited@) + queue@.len(),
    {
        let ghost measure = 2 * unset_count(visited@) + queue@.len();
        let ghost q0 = queue@;
        match queue.pop_front() {
            None => {
                break;
            },
            Some(cell) => {
                proof {
                    assert(q0[0] == cell);
                    assert(queue@ =~= q0.drop_first());
                    assert forall|x: int| x != cell && !in_queue(queue@, x) implies !in_queue(q0, x) by {
                        if in_queue(q0, x) {
                            let i = choose|i: int| 0 <= i < q0.len() && q0[i] == x;
                            assert(queue@[i - 1] == x);
                        }
                    }
                }
                let mut k: usize = 0;
                while k < 4
                    invariant
                        cb.wf(),
                        nb == cb.nbrs(),
                        n == cb.cell_count,
                        boxes == box_cells@,
                        sorted_cells(boxes),
                        crate::compiled_board::nbrs_ok(nb, n),
                        start != target,
                        target != INVALID_CELL,
                        target < n ==> !visited@[target as int],
                        cell < n,
                        visited@[cell as int],
                        0 <= k <= 4,
                        visited@.len() == n,
                        0 <= start < n,
                        visited@[start as int],
                        2 * unset_count(visited@) + queue@.len() < measure,
                        forall|i: int| 0 <= i < queue@.len() ==> (#[trigger] queue@[i]) < n && visited@[queue@[i] as int],
                        forall|x: int| 0 <= x < n && #[trigger] visited@[x] ==> reachable(walks(nb, boxes), start as int, x),
                        forall|x: int, y: int|
                            0 <= x < n && x != cell && visited@[x] && !in_queue(queue@, x) && #[trigger] walk_step(nb, boxes, x, y)
                                ==> visited@[y],
                        forall|j: int|
                            0 <= j < k && (#[trigger] nb[cell as int]@[j]) != INVALID_CELL && !has_cell(
                                boxes,
                                nb[cell as int]@[j] as int,
                            ) ==> visited@[nb[cell as int]@[j] as int],
                    decreases 4 - k,
                {
                    let dir = crate::compiled_board::direction_at(k);
                    let next = cb.neighbor(cell, dir);
                    if next != INVALID_CELL && !visited[next as usize] {
                        if !contains_cell(box_cells, next) {
                            proof {
                                assert(nb[cell as int]@[k as int] == next);
                                assert(walk_step(nb, boxes, cell as int, next as int));
                                assert(reachable(walks(nb, boxes), start as int, cell as int));
                                let kk = choose|kk: nat| #[trigger] reaches_in(walks(nb, boxes), start as int, cell as int, kk);
                                lemma_reaches_step(walks(nb, boxes), start as int, cell as int, next as int, kk);
                                assert(reachable(walks(nb, boxes), start as int, next as int));
                                lemma_unset_count_set(visited@, next as int);
                            }
                            if next == target {
                                return true;
                            }
                            let ghost before = visited@;
                            visited.set(next as usize, true);
                            let ghost qb = queue@;
                            queue.push_back(next);
                            proof {
                                assert forall|x: int| 0 <= x < n && #[trigger] visited@[x] implies reachable(
                                    walks(nb, boxes),
                                    start as int,
                                    x,
                                ) by {
                                    if x != next {
                                        assert(before[x]);
                                    }
                                }
                                assert forall|x: int, y: int|
                                    0 <= x < n && x != cell && visited@[x] && !in_queue(queue@, x) && #[trigger] walk_step(
                                        nb,
                                        boxes,
                                        x,
                                        y,
                                    ) implies visited@[y] by {
                                    if x != next {
                                        if in_queue(qb, x) {
                                            let i = choose|i: int| 0 <= i < qb.len() && qb[i] == x;
                                            assert(queue@[i] == x);
                                        }
                                        assert(before[y]);
                                    } else {
                                        assert(queue@[queue@.len() - 1] == x);
                                    }
                                }
                                assert forall|i: int| 0 <= i < queue@.len() implies (#[trigger] queue@[i]) < n
                                    && visited@[queue@[i] as int] by {
                                    if i < queue@.len() - 1 {
                                        assert(queue@[i] == qb[i]);
                                    }
                                }
                            }
                        }
                    }
                    k += 1;
                }
                proof {
                    assert forall|x: int, y: int|
                        0 <= x < n && visited@[x] && !in_queue(queue@, x) && #[trigger] walk_step(nb, boxes, x, y)
                            implies visited@[y] by {
                        if x == cell {
                            let j = choose|j: int|
                                0 <= j < 4 && 0 <= x < nb.len() && 0 <= y < nb.len() && #[trigger] nb[x]@[j] == y
                                    && !has_cell(boxes, y);
                            assert(nb[cell as int]@[j] == y);
                        }
                    }
                }
            },
        }
    }
    proof {
        let step = walks(nb, boxes);
        let inside = |x: int| 0 <= x < n && visited@[x];
        assert forall|x: int, y: int| inside(x) && #[trigger] step(x, y) implies inside(y) by {
            assert(walk_step(nb, boxes, x, y));
            assert(!in_queue(queue@, x));
        }
        if reachable(step, start as int, target as int) {
            lemma_closed_reach(step, inside, start as int, target as int);
        }
    }
    false
}


/// `k` is the length of a shortest path from `a` to `b`.
pub open spec fn distance_is(step: spec_fn(int, int) -> bool, a: int, b: int, k: nat) -> bool {
    &&& reaches_in(step, a, b, k)
    &&& forall|j: nat| j < k ==> !#[trigger] reaches_in(step, a, b, j)
}

/// How many entries of `s` are set (not `u32::MAX`).
spec fn found_count(s: Seq<u32>) -> nat
    decreases s.len(),
{
    if s.len() == 0 {
        0
    } else {
        found_count(s.drop_last()) + if s.last() != u32::MAX {
            1nat
        } else {
            0nat
        }
    }
}

proof fn lemma_found_count_set(s: Seq<u32>, i: int, v: u32)
    requires
        0 <= i < s.len(),
        s[i] == u32::MAX,
        v != u32::MAX,
    ensures
        found_count(s.update(i, v)) == found_count(s) + 1,
        found_count(s) < s.len(),
    decreases s.len(),
{
    if i < s.len() - 1 {
        lemma_found_count_set(s.drop_last(), i, v);
        assert(s.update(i, v).drop_last() =~= s.drop_last().update(i, v));
    } else {
        assert(s.update(i, v).drop_last() =~= s.drop_last());
        lemma_found_count_le(s.drop_last());
    }
}

proof fn lemma_found_count_le(s: Seq<u32>)
    ensures
        found_count(s) <= s.len(),
    decreases s.len(),
{
    if s.len() > 0 {
        lemma_found_count_le(s.drop_last());
    }
}

proof fn lemma_none_found(s: Seq<u32>)
    requires
        forall|i: int| 0 <= i < s.len() ==> s[i] == u32::MAX,
    ensures
        found_count(s) == 0,
    decreases s.len(),
{
    if s.len() > 0 {
        lemma_none_found(s.drop_last());
    }
}

/// When every cell found at distance below `level` has been expanded (left
/// the queue) and expanded cells have all their neighbours found one step
/// further at most, every cell a path of `k <= level` steps reaches is found,
/// at distance at most `k`.
proof fn lemma_levels_found(
    nb: Seq<[u16; 4]>,
    boxes: Seq<(u16, u8)>,
    start: int,
    dist: Seq<u32>,
    queue: Seq<u16>,
    level: int,
    z: int,
    k: nat,
)
    requires
        0 <= start < nb.len(),
        dist.len() == nb.len(),
        dist[start] == 0,
        k <= level,
        forall|x: int| 0 <= x < nb.len() && dist[x] != u32::MAX && dist[x] < level ==> !#[trigger] in_queue(queue, x),
        forall|x: int, y: int|
            0 <= x < nb.len() && dist[x] != u32::MAX && dist[x] < level && !in_queue(queue, x) && #[trigger] walk_step(
                nb,
                boxes,
                x,
                y,
            ) ==> dist[y] != u32::MAX && dist[y] <= dist[x] + 1,
        reaches_in(walks(nb, boxes), start, z, k),
    ensures
        0 <= z < nb.len(),
        dist[z] != u32::MAX,
        dist[z] <= k,
    decreases k,
{
    let step = walks(nb, boxes);
    let s = choose|s: Seq<int>| #[trigger] crate::graph::path_of(step, s, start, z, k);
    if k == 0 {
    } else {
        let t = s.take(k as int);
        let m = s[k - 1];
        assert forall|i: int| 0 <= i < k - 1 implies #[trigger] crate::graph::link(step, t, i) by {
            assert(crate::graph::link(step, s, i));
        }
        assert(crate::graph::path_of(step, t, start, m, (k - 1) as nat));
        lemma_levels_found(nb, boxes, start, dist, queue, level, m, (k - 1) as nat);
        assert(crate::graph::link(step, s, k - 1));
        assert(walk_step(nb, boxes, m, z));
        assert(!in_queue(queue, m));
    }
}

/// The state of a breadth-first search from `start` that records distances.
spec fn dist_search(
    nb: Seq<[u16; 4]>,
    boxes: Seq<(u16, u8)>,
    start: int,
    dist: Seq<u32>,
    queue: Seq<u16>,
) -> bool {
    let n = nb.len() as int;
    let step = walks(nb, boxes);
    &&& dist.len() == n
    &&& 0 <= start < n
    &&& dist[start] == 0
    &&& forall|i: int| 0 <= i < queue.len() ==> (#[trigger] queue[i]) < n && dist[queue[i] as int] != u32::MAX
    &&& forall|x: int| 0 <= x < n && #[trigger] dist[x] != u32::MAX ==> dist[x] < found_count(dist)
    &&& forall|x: int| 0 <= x < n && #[trigger] dist[x] != u32::MAX ==> distance_is(step, start, x, dist[x] as nat)
    &&& forall|x: int, y: int|
        0 <= x < n && dist[x] != u32::MAX && !in_queue(queue, x) && #[trigger] walk_step(nb, boxes, x, y)
            ==> dist[y] != u32::MAX && dist[y] <= dist[x] + 1
    &&& forall|i: int, j: int|
        0 <= i <= j < queue.len() ==> dist[(#[trigger] queue[i]) as int] <= dist[(#[trigger] queue[j]) as int]
    &&& forall|i: int| 0 <= i < queue.len() ==> dist[(#[trigger] queue[i]) as int] <= dist[queue[0] as int] + 1
}

/// The length of a shortest walk of the keeper from `start` to `target`
/// without moving a box; `None` when there is none. `box_cells` is sorted by
/// cell.
pub fn keeper_distance(cb: &CompiledBoard, start: u16, target: u16, box_cells: &[(u16, u8)]) -> (d: Option<u32>)
    requires
        cb.wf(),
        start < cb.cell_count || start == INVALID_CELL,
        sorted_cells(box_cells@),
    ensures
        start == target ==> d == Some(0u32),
        start != target ==> match d {
            Some(k) => start != INVALID_CELL && target != INVALID_CELL && k < cb.cell_count && distance_is(
                walks(cb.nbrs(), box_cells@),
                start as int,
                target as int,
                k as nat,
            ),
            None => start == INVALID_CELL || target == INVALID_CELL || !reachable(
                walks(cb.nbrs(), box_cells@),
                start as int,
                target as int,
            ),
        },
{
    if start == target {
        return Some(0);
    }
    if start == INVALID_CELL || target == INVALID_CELL {
        return None;
    }
    proof {
        cb.lemma_wf();
    }
    let ghost nb = cb.nbrs();
    let ghost boxes = box_cells@;
    let ghost n = cb.cell_count as int;
    let ghost step = walks(nb, boxes);
    let mut dist: Vec<u32> = vec![u32::MAX; cb.cell_count as usize];
    let mut queue: VecDeque<u16> = VecDeque::new();
    proof {
        lemma_reaches_self(step, start as int);
        lemma_none_found(dist@);
        lemma_found_count_set(dist@, start as int, 0);
    }
    dist.set(start as usize, 0);
    queue.push_back(start);
    proof {
        assert(queue@[0] == start);
        assert(in_queue(queue@, start as int));
        assert forall|x: int| 0 <= x < n && #[trigger] dist@[x] != u32::MAX implies distance_is(step, start as int, x, dist@[x] as nat) by {
            assert(x == start);
        }
    }
    loop
        invariant
            cb.wf(),
            nb == cb.nbrs(),
            n == cb.cell_count,
            boxes == box_cells@,
            step == walks(nb, boxes),
            sorted_cells(boxes),
            crate::compiled_board::nbrs_ok(nb, n),
            start != target,
            target != INVALID_CELL,
            dist_search(nb, boxes, start as int, dist@, queue@),
            target < n ==> dist@[target as int] == u32::MAX,
        ensures
            queue@.len() == 0,
        decreases 2 * (n - found_count(dist@)) + queue@.len(),
    {
        let ghost measure = 2 * (n - found_count(dist@)) + queue@.len();
        let ghost q0 = queue@;
        proof {
            lemma_found_count_le(dist@);
        }
        match queue.pop_front() {
            None => {
                break;
            },
            Some(cell) => {
                let d = dist[cell as usize];
                proof {
                    assert(q0[0] == cell);
                    assert(queue@ =~= q0.drop_first());
                    assert forall|x: int| x != cell && !in_queue(queue@, x) implies !in_queue(q0, x) by {
                        if in_queue(q0, x) {
                            let i = choose|i: int| 0 <= i < q0.len() && q0[i] == x;
                            assert(queue@[i - 1] == x);
                        }
                    }
                    assert forall|i: int| 0 <= i < queue@.len() implies d <= dist@[(#[trigger] queue@[i]) as int]
                        <= d + 1 by {
                        assert(queue@[i] == q0[i + 1]);
                        assert(dist@[q0[0] as int] <= dist@[q0[i + 1] as int]);
                    }
                }
                let mut k: usize = 0;
                while k < 4
                    invariant
                        cb.wf(),
                        nb == cb.nbrs(),
                        n == cb.cell_count,
                        boxes == box_cells@,
                        step == walks(nb, boxes),
                        sorted_cells(boxes),
                        crate::compiled_board::nbrs_ok(nb, n),
                        start != target,
                        target != INVALID_CELL,
                        target < n ==> dist@[target as int] == u32::MAX,
                        cell < n,
                        d == dist@[cell as int],
                        d != u32::MAX,
                        0 <= k <= 4,
                        dist@.len() == n,
                        0 <= start < n,
                        dist@[start as int] == 0,
                        2 * (n - found_count(dist@)) + queue@.len() < measure,
                        forall|i: int| 0 <= i < queue@.len() ==> (#[trigger] queue@[i]) < n && dist@[queue@[i] as int] != u32::MAX,
                        forall|x: int| 0 <= x < n && #[trigger] dist@[x] != u32::MAX ==> dist@[x] < found_count(dist@),
                        forall|x: int| 0 <= x < n && #[trigger] dist@[x] != u32::MAX ==> distance_is(step, start as int, x, dist@[x] as nat),
                        forall|x: int, y: int|
                            0 <= x < n && x != cell && dist@[x] != u32::MAX && !in_queue(queue@, x) && #[trigger] walk_step(nb, boxes, x, y)
                                ==> dist@[y] != u32::MAX && dist@[y] <= dist@[x] + 1,
                        forall|i: int, j: int|
                            0 <= i <= j < queue@.len() ==> dist@[(#[trigger] queue@[i]) as int] <= dist@[(#[trigger] queue@[j]) as int],
                        forall|i: int| 0 <= i < queue@.len() ==> d <= dist@[(#[trigger] queue@[i]) as int] <= d + 1,
                        !in_queue(queue@, cell as int) ==> forall|x: int| 0 <= x < n && dist@[x] != u32::MAX && dist@[x] < d ==> !#[trigger] in_queue(queue@, x),
                        forall|x: int| 0 <= x < n && dist@[x] != u32::MAX && dist@[x] < d ==> !#[trigger] in_queue(queue@, x),
                        forall|j: int|
                            0 <= j < k && (#[trigger] nb[cell as int]@[j]) != INVALID_CELL && !has_cell(
                                boxes,
                                nb[cell as int]@[j] as int,
                            ) ==> dist@[nb[cell as int]@[j] as int] != u32::MAX && dist@[nb[cell as int]@[j] as int] <= d + 1,
                    decreases 4 - k,
                {
                    let dir = crate::compiled_board::direction_at(k);
                    let next = cb.neighbor(cell, dir);
                    if next != INVALID_CELL && !contains_cell(box_cells, next) {
                        proof {
                            lemma_found_count_le(dist@);
                            assert(nb[cell as int]@[k as int] == next);
                            assert(walk_step(nb, boxes, cell as int, next as int));
                            lemma_reaches_step(step, start as int, cell as int, next as int, d as nat);
                        }
                        if dist[next as usize] > d + 1 {
                            proof {
                                if dist@[next as int] != u32::MAX {
                                    assert(distance_is(step, start as int, next as int, dist@[next as int] as nat));
                                    assert(!reaches_in(step, start as int, next as int, (d + 1) as nat));
                                }
                                assert(dist@[next as int] == u32::MAX);
                                // No walk of d steps or fewer reaches `next`: it would have been found.
                                assert forall|j: nat| j < d + 1 implies !#[trigger] reaches_in(step, start as int, next as int, j) by {
                                    if reaches_in(step, start as int, next as int, j) {
                                        lemma_levels_found(nb, boxes, start as int, dist@, queue@, d as int, next as int, j);
                                    }
                                }
                                lemma_found_count_set(dist@, next as int, (d + 1) as u32);
                            }
                            let ghost before = dist@;
                            dist.set(next as usize, d + 1);
                            if next == target {
                                return Some(d + 1);
                            }
                            let ghost qb = queue@;
                            queue.push_back(next);
                            proof {
                                assert forall|x: int| 0 <= x < n && #[trigger] dist@[x] != u32::MAX implies dist@[x] < found_count(dist@) by {
                                    if x != next {
                                        assert(dist@[x] == before[x]);
                                    }
                                }
                                assert forall|x: int| 0 <= x < n && #[trigger] dist@[x] != u32::MAX implies distance_is(
                                    step,
                                    start as int,
                                    x,
                                    dist@[x] as nat,
                                ) by {
                                    if x != next {
                                        assert(dist@[x] == before[x]);
                                    }
                                }
                                assert forall|x: int, y: int|
                                    0 <= x < n && x != cell && dist@[x] != u32::MAX && !in_queue(queue@, x) && #[trigger] walk_step(
                                        nb,
                                        boxes,
                                        x,
                                        y,
                                    ) implies dist@[y] != u32::MAX && dist@[y] <= dist@[x] + 1 by {
                                    if x != next {
                                        assert(dist@[x] == before[x]);
                                        if in_queue(qb, x) {
                                            let i = choose|i: int| 0 <= i < qb.len() && qb[i] == x;
                                            assert(queue@[i] == x);
                                        }
                                        assert(before[y] != u32::MAX && before[y] <= before[x] + 1);
                                        if y != next {
                                            assert(dist@[y] == before[y]);
                                        }
                                    } else {
                                        assert(queue@[queue@.len() - 1] == x);
                                    }
                                }
                                assert forall|i: int| 0 <= i < queue@.len() implies (#[trigger] queue@[i]) < n
                                    && dist@[queue@[i] as int] != u32::MAX && d <= dist@[queue@[i] as int] <= d + 1 by {
                                    if i < queue@.len() - 1 {
                                        assert(queue@[i] == qb[i]);
                                        assert(qb[i] != next);
                                    }
                                }
                                assert forall|i: int, j: int| 0 <= i <= j < queue@.len() implies dist@[(#[trigger] queue@[i]) as int]
                                    <= dist@[(#[trigger] queue@[j]) as int] by {
                                    if j < queue@.len() - 1 {
                                        assert(queue@[i] == qb[i]);
                                        assert(queue@[j] == qb[j]);
                                        assert(qb[i] != next && qb[j] != next);
                                    } else if i < queue@.len() - 1 {
                                        assert(queue@[i] == qb[i]);
                                        assert(qb[i] != next);
                                    }
                                }
                                assert forall|x: int| 0 <= x < n && dist@[x] != u32::MAX && dist@[x] < d implies !#[trigger] in_queue(queue@, x) by {
                                    if in_queue(queue@, x) {
                                        let i = choose|i: int| 0 <= i < queue@.len() && queue@[i] == x;
                                        assert(d <= dist@[queue@[i] as int]);
                                    }
                                }
                                assert forall|j: int|
                                    0 <= j < k + 1 && (#[trigger] nb[cell as int]@[j]) != INVALID_CELL && !has_cell(
                                        boxes,
                                        nb[cell as int]@[j] as int,
                                    ) implies dist@[nb[cell as int]@[j] as int] != u32::MAX && dist@[nb[cell as int]@[j] as int]
                                    <= d + 1 by {
                                    let y = nb[cell as int]@[j] as int;
                                    if y != next {
                                        assert(dist@[y] == before[y]);
                                    }
                                }
                            }
                        }
                    }
                    k += 1;
                }
                proof {
                    assert forall|x: int, y: int|
                        0 <= x < n && dist@[x] != u32::MAX && !in_queue(queue@, x) && #[trigger] walk_step(nb, boxes, x, y)
                            implies dist@[y] != u32::MAX && dist@[y] <= dist@[x] + 1 by {
                        if x == cell {
                            let j = choose|j: int|
                                0 <= j < 4 && 0 <= x < nb.len() && 0 <= y < nb.len() && #[trigger] nb[x]@[j] == y
                                    && !has_cell(boxes, y);
                            assert(nb[cell as int]@[j] == y);
                        }
                    }
                    assert forall|i: int| 0 <= i < queue@.len() implies dist@[(#[trigger] queue@[i]) as int] <= dist@[queue@[0] as int] + 1 by {
                        assert(d <= dist@[queue@[0] as int]);
                    }
                    lemma_found_count_le(dist@);
                }
            },
        }
    }
    proof {
        let inside = |x: int| 0 <= x < n && dist@[x] != u32::MAX;
        assert forall|x: int, y: int| inside(x) && #[trigger] step(x, y) implies inside(y) by {
            assert(walk_step(nb, boxes, x, y));
            assert(!in_queue(queue@, x));
        }
        if reachable(step, start as int, target as int) {
            lemma_closed_reach(step, inside, start as int, target as int);
        }
    }
    None
}


/// Where the keeper ends after walking `dirs` from cell `c`: `None` when a
/// step leaves the floor or runs into a box.
pub open spec fn follow(nb: Seq<[u16; 4]>, boxes: Seq<(u16, u8)>, c: int, dirs: Seq<Direction>) -> Option<int>
    decreases dirs.len(),
{
    if dirs.len() == 0 {
        Some(c)
    } else {
        let next = nb[c]@[crate::position::spec_index(dirs[0])] as int;
        if 0 <= c < nb.len() && next != INVALID_CELL && !has_cell(boxes, next) {
            follow(nb, boxes, next, dirs.drop_first())
        } else {
            None
        }
    }
}

/// Walking one more step first: from `prev` through its neighbour `cur`.
proof fn lemma_follow_front(nb: Seq<[u16; 4]>, boxes: Seq<(u16, u8)>, prev: int, d: Direction, cur: int, rest: Seq<Direction>)
    requires
        0 <= prev < nb.len(),
        nb[prev]@[crate::position::spec_index(d)] == cur,
        cur != INVALID_CELL,
        !has_cell(boxes, cur),
    ensures
        follow(nb, boxes, prev, seq![d] + rest) == follow(nb, boxes, cur, rest),
{
    assert((seq![d] + rest).drop_first() =~= rest);
}

/// The walk from `start` to `target` read off the parent links of a search
/// from `start`: each found cell records the cell it was reached from and the
/// direction of that step.
#[verifier::rlimit(60)]
fn trace_path(
    parent: &Vec<(u16, Direction)>,
    start: u16,
    target: u16,
    Ghost(nb): Ghost<Seq<[u16; 4]>>,
    Ghost(boxes): Ghost<Seq<(u16, u8)>>,
    Ghost(dist): Ghost<Seq<u32>>,
) -> (path: Vec<Direction>)
    requires
        crate::compiled_board::nbrs_ok(nb, nb.len() as int),
        target < nb.len(),
        0 <= start < nb.len(),
        dist.len() == nb.len(),
        dist[start as int] == 0,
        dist[target as int] != u32::MAX,
        parent@.len() == nb.len(),
        forall|x: int|
            0 <= x < nb.len() && x != start && #[trigger] dist[x] != u32::MAX ==> {
                &&& parent@[x].0 < nb.len()
                &&& dist[parent@[x].0 as int] != u32::MAX
                &&& dist[parent@[x].0 as int] + 1 == dist[x]
                &&& nb[parent@[x].0 as int]@[crate::position::spec_index(parent@[x].1)] == x
                &&& !has_cell(boxes, x)
            },
    ensures
        follow(nb, boxes, start as int, path@) == Some(target as int),
        path@.len() == dist[target as int],
{
    let ghost n = nb.len() as int;
    let mut rev: Vec<Direction> = Vec::new();
    let mut cur = target;
    let ghost mut fwd: Seq<Direction> = Seq::empty();
    while cur != start
        invariant
            crate::compiled_board::nbrs_ok(nb, n),
            n == nb.len(),
            cur < n,
            0 <= start < n,
            dist.len() == n,
            dist[start as int] == 0,
            dist[cur as int] != u32::MAX,
            dist[target as int] != u32::MAX,
            dist[cur as int] + rev@.len() == dist[target as int],
            parent@.len() == n,
            fwd.len() == rev@.len(),
            forall|i: int| 0 <= i < fwd.len() ==> #[trigger] fwd[i] == rev@[rev@.len() - 1 - i],
            follow(nb, boxes, cur as int, fwd) == Some(target as int),
            forall|x: int|
                0 <= x < n && x != start && #[trigger] dist[x] != u32::MAX ==> {
                    &&& parent@[x].0 < n
                    &&& dist[parent@[x].0 as int] != u32::MAX
                    &&& dist[parent@[x].0 as int] + 1 == dist[x]
                    &&& nb[parent@[x].0 as int]@[crate::position::spec_index(parent@[x].1)] == x
                    &&& !has_cell(boxes, x)
                },
        decreases dist[cur as int],
    {
        let (prev, d2) = parent[cur as usize];
        proof {
            assert(dist[cur as int] != 0);
            lemma_follow_front(nb, boxes, prev as int, d2, cur as int, fwd);
            let f2 = seq![d2] + fwd;
            assert forall|i: int| 0 <= i < f2.len() implies #[trigger] f2[i] == rev@.push(d2)[rev@.len() - i] by {
                if i > 0 {
                    assert(f2[i] == fwd[i - 1]);
                }
            }
            fwd = f2;
        }
        rev.push(d2);
        cur = prev;
    }
    let mut out: Vec<Direction> = Vec::new();
    let mut i: usize = rev.len();
    while i > 0
        invariant
            i <= rev@.len(),
            fwd.len() == rev@.len(),
            forall|j: int| 0 <= j < fwd.len() ==> #[trigger] fwd[j] == rev@[rev@.len() - 1 - j],
            out@ == fwd.take(rev@.len() - i),
        decreases i,
    {
        i -= 1;
        out.push(rev[i]);
        proof {
            assert(fwd[rev@.len() - 1 - i] == rev@[i as int]);
            assert(out@ =~= fwd.take(rev@.len() - i));
        }
    }
    proof {
        assert(fwd.take(rev@.len() as int) =~= fwd);
    }
    out
}

/// A shortest walk of the keeper from `start` to `target` without moving a
/// box, as directions; `None` when there is none. `box_cells` is sorted by
/// cell.
#[verifier::rlimit(80)]
pub fn find_keeper_path(cb: &CompiledBoard, start: u16, target: u16, box_cells: &[(u16, u8)]) -> (path: Option<Vec<Direction>>)
    requires
        cb.wf(),
        start < cb.cell_count || start == INVALID_CELL,
        sorted_cells(box_cells@),
    ensures
        start == target ==> path.is_some() && path.unwrap()@.len() == 0,
        path matches Some(p) ==> p@.len() < cb.cell_count || start == target,
        start != target ==> match path {
            Some(p) => start != INVALID_CELL && target != INVALID_CELL && follow(
                cb.nbrs(),
                box_cells@,
                start as int,
                p@,
            ) == Some(target as int) && distance_is(walks(cb.nbrs(), box_cells@), start as int, target as int, p@.len()),
            None => start == INVALID_CELL || target == INVALID_CELL || !reachable(
                walks(cb.nbrs(), box_cells@),
                start as int,
                target as int,
            ),
        },
{
    if start == target {
        return Some(Vec::new());
    }
    if start == INVALID_CELL || target == INVALID_CELL {
        return None;
    }
    proof {
        cb.lemma_wf();
    }
    let ghost nb = cb.nbrs();
    let ghost boxes = box_cells@;
    let ghost n = cb.cell_count as int;
    let ghost step = walks(nb, boxes);
    let mut parent: Vec<(u16, Direction)> = vec![(INVALID_CELL, Direction::Up); cb.cell_count as usize];
    let mut visited: Vec<bool> = vec![false; cb.cell_count as usize];
    let ghost mut dist: Seq<u32> = Seq::new(n as nat, |i: int| u32::MAX);
    let mut queue: VecDeque<u16> = VecDeque::new();
    proof {
        lemma_reaches_self(step, start as int);
        lemma_none_found(dist);
        lemma_found_count_set(dist, start as int, 0);
        dist = dist.update(start as int, 0);
    }
    visited.set(start as usize, true);
    queue.push_back(start);
    proof {
        assert(queue@[0] == start);
        assert(in_queue(queue@, start as int));
        assert forall|x: int| 0 <= x < n && #[trigger] dist[x] != u32::MAX implies distance_is(step, start as int, x, dist[x] as nat) by {
            assert(x == start);
        }
    }
    loop
        invariant
            cb.wf(),
            nb == cb.nbrs(),
            n == cb.cell_count,
            boxes == box_cells@,
            step == walks(nb, boxes),
            sorted_cells(boxes),
            crate::compiled_board::nbrs_ok(nb, n),
            start != target,
            target != INVALID_CELL,
            dist_search(nb, boxes, start as int, dist, queue@),
            target < n ==> dist[target as int] == u32::MAX,
            visited@.len() == n,
            parent@.len() == n,
            forall|x: int| 0 <= x < n ==> #[trigger] visited@[x] == (dist[x] != u32::MAX),
            forall|x: int|
                0 <= x < n && x != start && #[trigger] dist[x] != u32::MAX ==> {
                    &&& parent@[x].0 < n
                    &&& dist[parent@[x].0 as int] != u32::MAX
                    &&& dist[parent@[x].0 as int] + 1 == dist[x]
                    &&& nb[parent@[x].0 as int]@[crate::position::spec_index(parent@[x].1)] == x
                    &&& !has_cell(boxes, x)
                },
        ensures
            queue@.len() == 0,
        decreases 2 * (n - found_count(dist)) + queue@.len(),
    {
        let ghost measure = 2 * (n - found_count(dist)) + queue@.len();
        let ghost q0 = queue@;
        proof {
            lemma_found_count_le(dist);
        }
        match queue.pop_front() {
            None => {
                break;
            },
            Some(cell) => {
                let ghost d = dist[cell as int];
                proof {
                    assert(q0[0] == cell);
                    assert(queue@ =~= q0.drop_first());
                    assert forall|x: int| x != cell && !in_queue(queue@, x) implies !in_queue(q0, x) by {
                        if in_queue(q0, x) {
                            let i = choose|i: int| 0 <= i < q0.len() && q0[i] == x;
                            assert(queue@[i - 1] == x);
                        }
                    }
                    assert forall|i: int| 0 <= i < queue@.len() implies d <= dist[(#[trigger] queue@[i]) as int]
                        <= d + 1 by {
                        assert(queue@[i] == q0[i + 1]);
                        assert(dist[q0[0] as int] <= dist[q0[i + 1] as int]);
                    }
                }
                let mut k: usize = 0;
                while k < 4
                    invariant
                        cb.wf(),
                        nb == cb.nbrs(),
                        n == cb.cell_count,
                        boxes == box_cells@,
                        step == walks(nb, boxes),
                        sorted_cells(boxes),
                        crate::compiled_board::nbrs_ok(nb, n),
                        start != target,
                        target != INVALID_CELL,
                        target < n ==> dist[target as int] == u32::MAX,
                        cell < n,
                        d == dist[cell as int],
                        d != u32::MAX,
                        0 <= k <= 4,
                        dist.len() == n,
                        0 <= start < n,
                        dist[start as int] == 0,
                        visited@.len() == n,
                        parent@.len() == n,
                        forall|x: int| 0 <= x < n ==> #[trigger] visited@[x] == (dist[x] != u32::MAX),
                        forall|x: int|
                            0 <= x < n && x != start && #[trigger] dist[x] != u32::MAX ==> {
                                &&& parent@[x].0 < n
                                &&& dist[parent@[x].0 as int] != u32::MAX
                                &&& dist[parent@[x].0 as int] + 1 == dist[x]
                                &&& nb[parent@[x].0 as int]@[crate::position::spec_index(parent@[x].1)] == x
                                &&& !has_cell(boxes, x)
                            },
                        2 * (n - found_count(dist)) + queue@.len() < measure,
                        forall|i: int| 0 <= i < queue@.len() ==> (#[trigger] queue@[i]) < n && dist[queue@[i] as int] != u32::MAX,
                        forall|x: int| 0 <= x < n && #[trigger] dist[x] != u32::MAX ==> dist[x] < found_count(dist),
                        forall|x: int| 0 <= x < n && #[trigger] dist[x] != u32::MAX ==> distance_is(step, start as int, x, dist[x] as nat),
                        forall|x: int, y: int|
                            0 <= x < n && x != cell && dist[x] != u32::MAX && !in_queue(queue@, x) && #[trigger] walk_step(nb, boxes, x, y)
                                ==> dist[y] != u32::MAX && dist[y] <= dist[x] + 1,
                        forall|i: int, j: int|
                            0 <= i <= j < queue@.len() ==> dist[(#[trigger] queue@[i]) as int] <= dist[(#[trigger] queue@[j]) as int],
                        forall|i: int| 0 <= i < queue@.len() ==> d <= dist[(#[trigger] queue@[i]) as int] <= d + 1,
                        forall|x: int| 0 <= x < n && dist[x] != u32::MAX && dist[x] < d ==> !#[trigger] in_queue(queue@, x),
                        forall|j: int|
                            0 <= j < k && (#[trigger] nb[cell as int]@[j]) != INVALID_CELL && !has_cell(
                                boxes,
                                nb[cell as int]@[j] as int,
                            ) ==> dist[nb[cell as int]@[j] as int] != u32::MAX && dist[nb[cell as int]@[j] as int] <= d + 1,
                    decreases 4 - k,
                {
                    let dir = crate::compiled_board::direction_at(k);
                    let next = cb.neighbor(cell, dir);
                    proof {
                        if next != INVALID_CELL && dist[next as int] != u32::MAX && !has_cell(boxes, next as int) {
                            assert(nb[cell as int]@[k as int] == next);
                            assert(walk_step(nb, boxes, cell as int, next as int));
                            lemma_reaches_step(step, start as int, cell as int, next as int, d as nat);
                            assert(distance_is(step, start as int, next as int, dist[next as int] as nat));
                        }
                    }
                    if next != INVALID_CELL && !visited[next as usize] && !contains_cell(box_cells, next) {
                        proof {
                            lemma_found_count_le(dist);
                            assert(nb[cell as int]@[k as int] == next);
                            assert(walk_step(nb, boxes, cell as int, next as int));
                            lemma_reaches_step(step, start as int, cell as int, next as int, d as nat);
                            assert(dist[next as int] == u32::MAX);
                            assert forall|j: nat| j < d + 1 implies !#[trigger] reaches_in(step, start as int, next as int, j) by {
                                if reaches_in(step, start as int, next as int, j) {
                                    lemma_levels_found(nb, boxes, start as int, dist, queue@, d as int, next as int, j);
                                }
                            }
                            lemma_found_count_set(dist, next as int, (d + 1) as u32);
                        }
                        let ghost before = dist;
                        visited.set(next as usize, true);
                        parent.set(next as usize, (cell, dir));
                        proof {
                            dist = dist.update(next as int, (d + 1) as u32);
                            assert forall|x: int|
                                0 <= x < n && x != start && #[trigger] dist[x] != u32::MAX implies {
                                    &&& parent@[x].0 < n
                                    &&& dist[parent@[x].0 as int] != u32::MAX
                                    &&& dist[parent@[x].0 as int] + 1 == dist[x]
                                    &&& nb[parent@[x].0 as int]@[crate::position::spec_index(parent@[x].1)] == x
                                    &&& !has_cell(boxes, x)
                                } by {
                                if x != next {
                                    assert(dist[x] == before[x]);
                                    assert(before[parent@[x].0 as int] != u32::MAX);
                                    assert(parent@[x].0 != next);
                                }
                            }
                            assert forall|x: int| 0 <= x < n && #[trigger] dist[x] != u32::MAX implies distance_is(
                                step,
                                start as int,
                                x,
                                dist[x] as nat,
                            ) by {
                                if x != next {
                                    assert(dist[x] == before[x]);
                                }
                            }
                        }
                        if next == target {
                            proof {
                                assert(d < found_count(before));
                                lemma_found_count_le(dist);
                            }
                            let out = trace_path(&parent, start, target, Ghost(nb), Ghost(boxes), Ghost(dist));
                            return Some(out);
                        }
                        let ghost qb = queue@;
                        queue.push_back(next);
                        proof {
                            assert forall|x: int| 0 <= x < n && #[trigger] dist[x] != u32::MAX implies dist[x] < found_count(dist) by {
                                if x != next {
                                    assert(dist[x] == before[x]);
                                }
                            }
                            assert forall|x: int, y: int|
                                0 <= x < n && x != cell && dist[x] != u32::MAX && !in_queue(queue@, x) && #[trigger] walk_step(
                                    nb,
                                    boxes,
                                    x,
                                    y,
                                ) implies dist[y] != u32::MAX && dist[y] <= dist[x] + 1 by {
                                if x != next {
                                    assert(dist[x] == before[x]);
                                    if in_queue(qb, x) {
                                        let i = choose|i: int| 0 <= i < qb.len() && qb[i] == x;
                                        assert(queue@[i] == x);
                                    }
                                    assert(before[y] != u32::MAX && before[y] <= before[x] + 1);
                                    if y != next {
                                        assert(dist[y] == before[y]);
                                    }
                                } else {
                                    assert(queue@[queue@.len() - 1] == x);
                                }
                            }
                            assert forall|i: int| 0 <= i < queue@.len() implies (#[trigger] queue@[i]) < n
                                && dist[queue@[i] as int] != u32::MAX && d <= dist[queue@[i] as int] <= d + 1 by {
                                if i < queue@.len() - 1 {
                                    assert(queue@[i] == qb[i]);
                                    assert(qb[i] != next);
                                }
                            }
                            assert forall|i: int, j: int| 0 <= i <= j < queue@.len() implies dist[(#[trigger] queue@[i]) as int]
                                <= dist[(#[trigger] queue@[j]) as int] by {
                                if j < queue@.len() - 1 {
                                    assert(queue@[i] == qb[i]);
                                    assert(queue@[j] == qb[j]);
                                    assert(qb[i] != next && qb[j] != next);
                                } else if i < queue@.len() - 1 {
                                    assert(queue@[i] == qb[i]);
                                    assert(qb[i] != next);
                                }
                            }
                            assert forall|x: int| 0 <= x < n && dist[x] != u32::MAX && dist[x] < d implies !#[trigger] in_queue(queue@, x) by {
                                if in_queue(queue@, x) {
                                    let i = choose|i: int| 0 <= i < queue@.len() && queue@[i] == x;
                                    assert(d <= dist[queue@[i] as int]);
                                }
                            }
                            assert forall|j: int|
                                0 <= j < k + 1 && (#[trigger] nb[cell as int]@[j]) != INVALID_CELL && !has_cell(
                                    boxes,
                                    nb[cell as int]@[j] as int,
                                ) implies dist[nb[cell as int]@[j] as int] != u32::MAX && dist[nb[cell as int]@[j] as int]
                                <= d + 1 by {
                                let y = nb[cell as int]@[j] as int;
                                if y != next {
                                    assert(dist[y] == before[y]);
                                }
                            }
                        }
                    }
                    k += 1;
                }
                proof {
                    assert forall|x: int, y: int|
                        0 <= x < n && dist[x] != u32::MAX && !in_queue(queue@, x) && #[trigger] walk_step(nb, boxes, x, y)
                            implies dist[y] != u32::MAX && dist[y] <= dist[x] + 1 by {
                        if x == cell {
                            let j = choose|j: int|
                                0 <= j < 4 && 0 <= x < nb.len() && 0 <= y < nb.len() && #[trigger] nb[x]@[j] == y
                                    && !has_cell(boxes, y);
                            assert(nb[cell as int]@[j] == y);
                        }
                    }
                    assert forall|i: int| 0 <= i < queue@.len() implies dist[(#[trigger] queue@[i]) as int] <= dist[queue@[0] as int] + 1 by {
                        assert(d <= dist[queue@[0] as int]);
                    }
                    lemma_found_count_le(dist);
                }
            },
        }
    }
    proof {
        let inside = |x: int| 0 <= x < n && dist[x] != u32::MAX;
        assert forall|x: int, y: int| inside(x) && #[trigger] step(x, y) implies inside(y) by {
            assert(walk_step(nb, boxes, x, y));
            assert(!in_queue(queue@, x));
        }
        if reachable(step, start as int, target as int) {
            lemma_closed_reach(step, inside, start as int, target as int);
        }
    }
    None
}

} // verus!
