use vstd::prelude::*;

use crate::compiled_board::{nbrs_ok, INVALID_CELL};
use crate::graph::{lemma_closed_bound, lemma_reaches_self, lemma_reaches_step, reachable, reaches_in, shortest};
use std::collections::VecDeque;

verus! {

broadcast use vstd::std_specs::vec::group_vec_axioms;

// Breadth-first search over a move table: entry `d` of cell `c` is the cell
// that the move in direction `d` leads to, or `INVALID_CELL`.

/// Moving from cell `x` to cell `y` is an entry of the move table.
pub open spec fn move_step(table: Seq<[u16; 4]>, x: int, y: int) -> bool {
    exists|d: int| 0 <= d < 4 && 0 <= x < table.len() && #[trigger] table[x]@[d] == y && y != INVALID_CELL
}

/// The graph of a move table.
pub open spec fn moves(table: Seq<[u16; 4]>) -> spec_fn(int, int) -> bool {
    |x: int, y: int| move_step(table, x, y)
}

/// Cell `x` waits in the queue `q`.
pub open spec fn in_queue(q: Seq<u16>, x: int) -> bool {
    exists|i: int| 0 <= i < q.len() && q[i] == x
}

/// How many entries of `s` are set (not `INVALID_CELL`).
pub open spec fn set_count(s: Seq<u16>) -> nat
    decreases s.len(),
{
    if s.len() == 0 {
        0
    } else {
        set_count(s.drop_last()) + if s.last() != INVALID_CELL {
            1nat
        } else {
            0nat
        }
    }
}

/// The sum of the entries of `s`.
pub open spec fn entry_sum(s: Seq<u16>) -> int
    decreases s.len(),
{
    if s.len() == 0 {
        0
    } else {
        entry_sum(s.drop_last()) + s.last() as int
    }
}

pub proof fn lemma_set_count_update(s: Seq<u16>, i: int, v: u16)
    requires
        0 <= i < s.len(),
        v != INVALID_CELL,
    ensures
        set_count(s.update(i, v)) == set_count(s) + if s[i] == INVALID_CELL {
            1int
        } else {
            0int
        },
        entry_sum(s.update(i, v)) == entry_sum(s) - s[i] + v,
    decreases s.len(),
{
    if i < s.len() - 1 {
        lemma_set_count_update(s.drop_last(), i, v);
        assert(s.update(i, v).drop_last() =~= s.drop_last().update(i, v));
    } else {
        assert(s.update(i, v).drop_last() =~= s.drop_last());
    }
}

pub proof fn lemma_set_count_le(s: Seq<u16>)
    ensures
        set_count(s) <= s.len(),
        entry_sum(s) >= 0,
    decreases s.len(),
{
    if s.len() > 0 {
        lemma_set_count_le(s.drop_last());
    }
}

pub proof fn lemma_all_unset(s: Seq<u16>)
    requires
        forall|i: int| 0 <= i < s.len() ==> s[i] == INVALID_CELL,
    ensures
        set_count(s) == 0,
    decreases s.len(),
{
    if s.len() > 0 {
        lemma_all_unset(s.drop_last());
    }
}

/// Breadth-first search from `src` over the move table: for every cell, the
/// least number of moves that lead there from `src`, or `INVALID_CELL`.
pub fn bfs_moves(cell_count: u16, table: &Vec<[u16; 4]>, src: u16) -> (dist: Vec<u16>)
    requires
        nbrs_ok(table@, cell_count as int),
        src < cell_count,
    ensures
        dist@.len() == cell_count,
        shortest(moves(table@), src as int, dist@, cell_count as int, INVALID_CELL as int),
{
    let ghost nb = table@;
    let ghost n = cell_count as int;
    let ghost step = moves(nb);
    let mut dist: Vec<u16> = vec![65535u16; cell_count as usize];
    let mut queue: VecDeque<u16> = VecDeque::new();
    proof {
        lemma_all_unset(dist@);
        lemma_set_count_update(dist@, src as int, 0);
        lemma_reaches_self(step, src as int);
    }
    dist.set(src as usize, 0);
    queue.push_back(src);
    proof {
        assert(queue@[0] == src);
        assert(in_queue(queue@, src as int));
        assert forall|x: int| 0 <= x < n && x != src implies #[trigger] dist@[x] == INVALID_CELL by {}
    }
    loop
        invariant
            nb == table@,
            n == cell_count as int,
            step == moves(nb),
            nbrs_ok(nb, n),
            src < n,
            dist@.len() == n,
            dist@[src as int] == 0,
            forall|i: int| 0 <= i < queue@.len() ==> (#[trigger] queue@[i]) < n && dist@[queue@[i] as int] != INVALID_CELL,
            forall|x: int|
                0 <= x < n && (#[trigger] dist@[x]) != INVALID_CELL ==> reaches_in(step, src as int, x, dist@[x] as nat),
            forall|x: int| 0 <= x < n && (#[trigger] dist@[x]) != INVALID_CELL ==> dist@[x] < set_count(dist@),
            forall|x: int, y: int|
                0 <= x < n && dist@[x] != INVALID_CELL && !in_queue(queue@, x) && #[trigger] move_step(nb, x, y)
                    ==> dist@[y] != INVALID_CELL && dist@[y] <= dist@[x] + 1,
        ensures
            queue@.len() == 0,
        decreases 2 * entry_sum(dist@) + queue@.len(),
    {
        let ghost measure = 2 * entry_sum(dist@) + queue@.len();
        let ghost q0 = queue@;
        match queue.pop_front() {
            None => {
                break;
            },
            Some(cell) => {
                proof {
                    assert(q0[0] == cell);
                    assert(queue@ =~= q0.drop_first());
                    assert forall|x: int| x != cell && !in_queue(queue@, x) implies !in_queue(q0, x) by {
                        if in_queue(q0, x) {
                            let i = choose|i: int| 0 <= i < q0.len() && q0[i] == x;
                            assert(i > 0);
                            assert(queue@[i - 1] == x);
                        }
                    }
                    assert(in_queue(q0, cell as int));
                }
                let d = dist[cell as usize];
                proof {
                    lemma_set_count_le(dist@);
                }
                let mut k: usize = 0;
                while k < 4
                    invariant
                        nb == table@,
                        n == cell_count as int,
                        step == moves(nb),
                        nbrs_ok(nb, n),
                        src < n,
                        cell < n,
                        0 <= k <= 4,
                        d == dist@[cell as int],
                        d != INVALID_CELL,
                        dist@.len() == n,
                        dist@[src as int] == 0,
                        2 * entry_sum(dist@) + queue@.len() < measure,
                        forall|i: int| 0 <= i < queue@.len() ==> (#[trigger] queue@[i]) < n && dist@[queue@[i] as int] != INVALID_CELL,
                        forall|x: int|
                            0 <= x < n && (#[trigger] dist@[x]) != INVALID_CELL ==> reaches_in(step, src as int, x, dist@[x] as nat),
                        forall|x: int| 0 <= x < n && (#[trigger] dist@[x]) != INVALID_CELL ==> dist@[x] < set_count(dist@),
                        forall|x: int, y: int|
                            0 <= x < n && x != cell && dist@[x] != INVALID_CELL && !in_queue(queue@, x) && #[trigger] move_step(nb, x, y)
                                ==> dist@[y] != INVALID_CELL && dist@[y] <= dist@[x] + 1,
                        forall|j: int|
                            0 <= j < k && (#[trigger] nb[cell as int]@[j]) != INVALID_CELL ==> dist@[nb[cell as int]@[j] as int]
                                != INVALID_CELL && dist@[nb[cell as int]@[j] as int] <= d + 1,
                    decreases 4 - k,
                {
                    let next = table[cell as usize][k];
                    if next != INVALID_CELL {
                        {
                            proof {
                                lemma_set_count_le(dist@);
                                if dist@[next as int] == INVALID_CELL {
                                    lemma_set_count_update(dist@, next as int, 0);
                                    lemma_set_count_le(dist@.update(next as int, 0));
                                }
                            }
                            let ghost before0 = dist@;
                            if dist[next as usize] > d + 1 {
                                let ghost before = dist@;
                                proof {
                                    assert(move_step(nb, cell as int, next as int));
                                    lemma_reaches_step(step, src as int, cell as int, next as int, d as nat);
                                    lemma_set_count_update(dist@, next as int, (d + 1) as u16);
                                }
                                dist.set(next as usize, d + 1);
                                let ghost qb = queue@;
                                queue.push_back(next);
                                proof {
                                    assert forall|x: int|
                                        0 <= x < n && (#[trigger] dist@[x]) != INVALID_CELL implies reaches_in(
                                        step,
                                        src as int,
                                        x,
                                        dist@[x] as nat,
                                    ) by {
                                        if x != next {
                                            assert(dist@[x] == before[x]);
                                        }
                                    }
                                    assert forall|x: int|
                                        0 <= x < n && (#[trigger] dist@[x]) != INVALID_CELL implies dist@[x] < set_count(
                                        dist@,
                                    ) by {
                                        if x != next {
                                            assert(dist@[x] == before[x]);
                                        }
                                    }
                                    assert forall|x: int, y: int|
                                        0 <= x < n && x != cell && dist@[x] != INVALID_CELL && !in_queue(queue@, x)
                                            && #[trigger] move_step(nb, x, y) implies dist@[y] != INVALID_CELL && dist@[y]
                                        <= dist@[x] + 1 by {
                                        if x != next {
                                            assert(dist@[x] == before[x]);
                                            if y != next {
                                                assert(dist@[y] == before[y]);
                                            }
                                            if in_queue(qb, x) {
                                                let i = choose|i: int| 0 <= i < qb.len() && qb[i] == x;
                                                assert(queue@[i] == x);
                                            }
                                            assert(!in_queue(qb, x));
                                            assert(before[y] != INVALID_CELL && before[y] <= before[x] + 1);
                                        } else {
                                            assert(queue@[queue@.len() - 1] == x);
                                        }
                                    }
                                    assert forall|i: int| 0 <= i < queue@.len() implies (#[trigger] queue@[i]) < n
                                        && dist@[queue@[i] as int] != INVALID_CELL by {
                                        if i < queue@.len() - 1 {
                                            assert(queue@[i] == queue@.drop_last()[i]);
                                        }
                                    }
                                    assert forall|j: int|
                                        0 <= j < k && (#[trigger] nb[cell as int]@[j]) != INVALID_CELL implies dist@[nb[cell as int]@[j] as int]
                                            != INVALID_CELL && dist@[nb[cell as int]@[j] as int] <= d + 1 by {
                                        let y = nb[cell as int]@[j] as int;
                                        if y != next {
                                            assert(dist@[y] == before[y]);
                                        }
                                    }
                                }
                            }
                        }
                    }
                    k += 1;
                }
                proof {
                    assert forall|x: int, y: int|
                        0 <= x < n && dist@[x] != INVALID_CELL && !in_queue(queue@, x) && #[trigger] move_step(nb, x, y)
                            implies dist@[y] != INVALID_CELL && dist@[y] <= dist@[x] + 1 by {
                        if x == cell {
                            let j = choose|j: int| 0 <= j < 4 && 0 <= x < nb.len() && #[trigger] nb[x]@[j] == y && y != INVALID_CELL;
                            assert(nb[cell as int]@[j] == y);
                        }
                    }
                    lemma_set_count_le(dist@);
                }
            },
        }
    }
    proof {
        let inside = |x: int| 0 <= x < n && dist@[x] != INVALID_CELL;
        let pot = |x: int| dist@[x] as int;
        assert forall|x: int, y: int| inside(x) && #[trigger] step(x, y) implies inside(y) && pot(y) <= pot(x) + 1 by {
            assert(move_step(nb, x, y));
            assert(!in_queue(queue@, x));
        }
        assert forall|x: int| 0 <= x < n implies {
            &&& (#[trigger] dist@[x] == INVALID_CELL <==> !reachable(step, src as int, x))
            &&& dist@[x] != INVALID_CELL ==> reaches_in(step, src as int, x, dist@[x] as nat) && forall|k: nat|
                k < dist@[x] ==> !#[trigger] reaches_in(step, src as int, x, k)
        } by {
            if reachable(step, src as int, x) {
                let k = choose|k: nat| #[trigger] reaches_in(step, src as int, x, k);
                lemma_closed_bound(step, inside, pot, src as int, x, k);
            }
            if dist@[x] != INVALID_CELL {
                assert(reaches_in(step, src as int, x, dist@[x] as nat));
                assert forall|k: nat| k < dist@[x] implies !#[trigger] reaches_in(step, src as int, x, k) by {
                    if reaches_in(step, src as int, x, k) {
                        lemma_closed_bound(step, inside, pot, src as int, x, k);
                    }
                }
            }
        }
    }
    dist
}




/// Node `y` is on the adjacency list of node `x`.
pub open spec fn list_step(adj: Seq<Vec<u16>>, x: int, y: int) -> bool {
    exists|j: int| 0 <= x < adj.len() && 0 <= j < adj[x]@.len() && #[trigger] adj[x]@[j] == y
}

/// The graph of adjacency lists.
pub open spec fn lists(adj: Seq<Vec<u16>>) -> spec_fn(int, int) -> bool {
    |x: int, y: int| list_step(adj, x, y)
}

/// The `n` lists name nodes below `n`, and `n` leaves room for the marker
/// `INVALID_CELL`.
pub open spec fn lists_ok(adj: Seq<Vec<u16>>, n: int) -> bool {
    &&& adj.len() == n
    &&& n <= INVALID_CELL
    &&& forall|x: int, j: int| 0 <= x < n && 0 <= j < adj[x]@.len() ==> (#[trigger] adj[x]@[j]) < n
}

/// Some path of exactly `k` steps leads from one of `srcs` to `x`.
pub open spec fn reaches_from(step: spec_fn(int, int) -> bool, srcs: Seq<u16>, x: int, k: nat) -> bool {
    exists|i: int| 0 <= i < srcs.len() && #[trigger] reaches_in(step, srcs[i] as int, x, k)
}

/// Some path leads from one of `srcs` to `x`.
pub open spec fn reachable_from(step: spec_fn(int, int) -> bool, srcs: Seq<u16>, x: int) -> bool {
    exists|k: nat| #[trigger] reaches_from(step, srcs, x, k)
}

/// `dist` holds the length of a shortest path from some node of `srcs` to
/// every node below `n`, and `none` where no path exists.
pub open spec fn shortest_from(step: spec_fn(int, int) -> bool, srcs: Seq<u16>, dist: Seq<u16>, n: int, none: int) -> bool {
    forall|x: int|
        0 <= x < n ==> {
            &&& (#[trigger] dist[x] == none <==> !reachable_from(step, srcs, x))
            &&& dist[x] != none ==> reaches_from(step, srcs, x, dist[x] as nat) && forall|k: nat|
                k < dist[x] ==> !#[trigger] reaches_from(step, srcs, x, k)
        }
}

/// From a single source, reaching from the sources is reaching from it.
pub proof fn lemma_single_source(step: spec_fn(int, int) -> bool, a: u16, x: int)
    ensures
        forall|k: nat| #[trigger] reaches_from(step, seq![a], x, k) <==> reaches_in(step, a as int, x, k),
        reachable_from(step, seq![a], x) <==> reachable(step, a as int, x),
{
    let srcs = seq![a];
    assert forall|k: nat| #[trigger] reaches_from(step, srcs, x, k) <==> reaches_in(step, a as int, x, k) by {
        if reaches_in(step, a as int, x, k) {
            assert(reaches_in(step, srcs[0] as int, x, k));
        }
    }
    if reachable(step, a as int, x) {
        let k = choose|k: nat| #[trigger] reaches_in(step, a as int, x, k);
        assert(reaches_from(step, srcs, x, k));
    }
    if reachable_from(step, srcs, x) {
        let k = choose|k: nat| #[trigger] reaches_from(step, srcs, x, k);
        assert(reaches_in(step, a as int, x, k));
    }
}

/// Breadth-first search from all of `sources` at once over the adjacency
/// lists: for every node, the least number of steps that lead there from
/// some source, or `INVALID_CELL`.
pub fn bfs_lists(node_count: u16, adj: &Vec<Vec<u16>>, sources: &Vec<u16>) -> (dist: Vec<u16>)
    requires
        lists_ok(adj@, node_count as int),
        forall|i: int| 0 <= i < sources@.len() ==> #[trigger] sources@[i] < node_count,
    ensures
        dist@.len() == node_count,
        shortest_from(lists(adj@), sources@, dist@, node_count as int, INVALID_CELL as int),
{
    let ghost nb = adj@;
    let ghost n = node_count as int;
    let ghost step = lists(nb);
    let ghost srcs = sources@;
    let mut dist: Vec<u16> = vec![65535u16; node_count as usize];
    let mut queue: VecDeque<u16> = VecDeque::new();
    proof {
        lemma_all_unset(dist@);
    }
    let mut si: usize = 0;
    while si < sources.len()
        invariant
            nb == adj@,
            n == node_count as int,
            step == lists(nb),
            srcs == sources@,
            lists_ok(nb, n),
            forall|i: int| 0 <= i < srcs.len() ==> #[trigger] srcs[i] < n,
            si <= srcs.len(),
            dist@.len() == n,
            forall|x: int| 0 <= x < n ==> #[trigger] dist@[x] == INVALID_CELL || dist@[x] == 0,
            forall|i: int| 0 <= i < si ==> dist@[#[trigger] srcs[i] as int] == 0,
            forall|x: int| 0 <= x < n && #[trigger] dist@[x] == 0 ==> in_queue(queue@, x) && reaches_from(step, srcs, x, 0),
            forall|i: int| 0 <= i < queue@.len() ==> (#[trigger] queue@[i]) < n && dist@[queue@[i] as int] == 0,
            forall|x: int| 0 <= x < n && (#[trigger] dist@[x]) != INVALID_CELL ==> dist@[x] < set_count(dist@),
            set_count(dist@) <= n,
        decreases srcs.len() - si,
    {
        let s = sources[si];
        if dist[s as usize] == INVALID_CELL {
            let ghost before = dist@;
            let ghost qb = queue@;
            proof {
                lemma_set_count_update(dist@, s as int, 0);
                lemma_set_count_le(dist@.update(s as int, 0));
                lemma_reaches_self(step, s as int);
                assert(reaches_in(step, srcs[si as int] as int, s as int, 0));
            }
            dist.set(s as usize, 0);
            queue.push_back(s);
            proof {
                assert(queue@[queue@.len() - 1] == s);
                assert forall|x: int| 0 <= x < n && #[trigger] dist@[x] == 0 implies in_queue(queue@, x) && reaches_from(step, srcs, x, 0) by {
                    if x != s {
                        assert(before[x] == 0);
                        let i = choose|i: int| 0 <= i < qb.len() && qb[i] == x;
                        assert(queue@[i] == x);
                    }
                }
                assert forall|i: int| 0 <= i < queue@.len() implies (#[trigger] queue@[i]) < n && dist@[queue@[i] as int] == 0 by {
                    if i < queue@.len() - 1 {
                        assert(queue@[i] == qb[i]);
                    }
                }
                assert forall|x: int| 0 <= x < n && (#[trigger] dist@[x]) != INVALID_CELL implies dist@[x] < set_count(dist@) by {}
            }
        }
        si += 1;
    }
    proof {
        lemma_set_count_le(dist@);
        assert forall|x: int| 0 <= x < n && (#[trigger] dist@[x]) != INVALID_CELL implies reaches_from(step, srcs, x, dist@[x] as nat) by {}
        assert forall|x: int, y: int|
            0 <= x < n && dist@[x] != INVALID_CELL && !in_queue(queue@, x) && #[trigger] list_step(nb, x, y) implies dist@[y]
            != INVALID_CELL && dist@[y] <= dist@[x] + 1 by {
            assert(dist@[x] == 0);
        }
    }
    loop
        invariant
            nb == adj@,
            n == node_count as int,
            step == lists(nb),
            srcs == sources@,
            lists_ok(nb, n),
            dist@.len() == n,
            forall|i: int| 0 <= i < srcs.len() ==> dist@[#[trigger] srcs[i] as int] == 0,
            forall|i: int| 0 <= i < srcs.len() ==> #[trigger] srcs[i] < n,
            forall|i: int| 0 <= i < queue@.len() ==> (#[trigger] queue@[i]) < n && dist@[queue@[i] as int] != INVALID_CELL,
            forall|x: int|
                0 <= x < n && (#[trigger] dist@[x]) != INVALID_CELL ==> reaches_from(step, srcs, x, dist@[x] as nat),
            forall|x: int| 0 <= x < n && (#[trigger] dist@[x]) != INVALID_CELL ==> dist@[x] < set_count(dist@),
            forall|x: int, y: int|
                0 <= x < n && dist@[x] != INVALID_CELL && !in_queue(queue@, x) && #[trigger] list_step(nb, x, y)
                    ==> dist@[y] != INVALID_CELL && dist@[y] <= dist@[x] + 1,
        ensures
            queue@.len() == 0,
        decreases 2 * entry_sum(dist@) + queue@.len(),
    {
        let ghost measure = 2 * entry_sum(dist@) + queue@.len();
        let ghost q0 = queue@;
        match queue.pop_front() {
            None => {
                break;
            },
            Some(cell) => {
                proof {
                    assert(q0[0] == cell);
                    assert(queue@ =~= q0.drop_first());
                    assert forall|x: int| x != cell && !in_queue(queue@, x) implies !in_queue(q0, x) by {
                        if in_queue(q0, x) {
                            let i = choose|i: int| 0 <= i < q0.len() && q0[i] == x;
                            assert(i > 0);
                            assert(queue@[i - 1] == x);
                        }
                    }
                    assert(in_queue(q0, cell as int));
                }
                let d = dist[cell as usize];
                proof {
                    lemma_set_count_le(dist@);
                }
                let mut k: usize = 0;
                while k < adj[cell as usize].len()
                    invariant
                        nb == adj@,
                        n == node_count as int,
                        step == lists(nb),
                        srcs == sources@,
                        lists_ok(nb, n),
                        cell < n,
                        0 <= k <= nb[cell as int]@.len(),
                        d == dist@[cell as int],
                        d != INVALID_CELL,
                        dist@.len() == n,
                        forall|i: int| 0 <= i < srcs.len() ==> dist@[#[trigger] srcs[i] as int] == 0,
                        forall|i: int| 0 <= i < srcs.len() ==> #[trigger] srcs[i] < n,
            forall|i: int| 0 <= i < srcs.len() ==> #[trigger] srcs[i] < n,
                        2 * entry_sum(dist@) + queue@.len() < measure,
                        forall|i: int| 0 <= i < queue@.len() ==> (#[trigger] queue@[i]) < n && dist@[queue@[i] as int] != INVALID_CELL,
                        forall|x: int|
                            0 <= x < n && (#[trigger] dist@[x]) != INVALID_CELL ==> reaches_from(step, srcs, x, dist@[x] as nat),
                        forall|x: int| 0 <= x < n && (#[trigger] dist@[x]) != INVALID_CELL ==> dist@[x] < set_count(dist@),
                        forall|x: int, y: int|
                            0 <= x < n && x != cell && dist@[x] != INVALID_CELL && !in_queue(queue@, x) && #[trigger] list_step(nb, x, y)
                                ==> dist@[y] != INVALID_CELL && dist@[y] <= dist@[x] + 1,
                        forall|j: int|
                            0 <= j < k ==> dist@[(#[trigger] nb[cell as int]@[j]) as int] != INVALID_CELL && dist@[nb[cell as int]@[j] as int]
                                <= d + 1,
                    decreases nb[cell as int]@.len() - k,
                {
                    let next = adj[cell as usize][k];
                    {
                        {
                            proof {
                                lemma_set_count_le(dist@);
                                if dist@[next as int] == INVALID_CELL {
                                    lemma_set_count_update(dist@, next as int, 0);
                                    lemma_set_count_le(dist@.update(next as int, 0));
                                }
                            }
                            let ghost before0 = dist@;
                            if dist[next as usize] > d + 1 {
                                let ghost before = dist@;
                                proof {
                                    assert(list_step(nb, cell as int, next as int));
                                    let w = choose|i: int| 0 <= i < srcs.len() && #[trigger] reaches_in(step, srcs[i] as int, cell as int, d as nat);
                                    lemma_reaches_step(step, srcs[w] as int, cell as int, next as int, d as nat);
                                    assert(reaches_in(step, srcs[w] as int, next as int, (d + 1) as nat));
                                    lemma_set_count_update(dist@, next as int, (d + 1) as u16);
                                }
                                dist.set(next as usize, d + 1);
                                let ghost qb = queue@;
                                queue.push_back(next);
                                proof {
                                    assert forall|i: int| 0 <= i < srcs.len() implies dist@[#[trigger] srcs[i] as int] == 0 by {
                                        if srcs[i] == next {
                                            assert(before[next as int] == 0);
                                        }
                                    }
                                    assert forall|x: int|
                                        0 <= x < n && (#[trigger] dist@[x]) != INVALID_CELL implies reaches_from(
                                        step,
                                        srcs,
                                        x,
                                        dist@[x] as nat,
                                    ) by {
                                        if x != next {
                                            assert(dist@[x] == before[x]);
                                        }
                                    }
                                    assert forall|x: int|
                                        0 <= x < n && (#[trigger] dist@[x]) != INVALID_CELL implies dist@[x] < set_count(
                                        dist@,
                                    ) by {
                                        if x != next {
                                            assert(dist@[x] == before[x]);
                                        }
                                    }
                                    assert forall|x: int, y: int|
                                        0 <= x < n && x != cell && dist@[x] != INVALID_CELL && !in_queue(queue@, x)
                                            && #[trigger] list_step(nb, x, y) implies dist@[y] != INVALID_CELL && dist@[y]
                                        <= dist@[x] + 1 by {
                                        if x != next {
                                            assert(dist@[x] == before[x]);
                                            if y != next {
                                                assert(dist@[y] == before[y]);
                                            }
                                            if in_queue(qb, x) {
                                                let i = choose|i: int| 0 <= i < qb.len() && qb[i] == x;
                                                assert(queue@[i] == x);
                                            }
                                            assert(!in_queue(qb, x));
                                            assert(before[y] != INVALID_CELL && before[y] <= before[x] + 1);
                                        } else {
                                            assert(queue@[queue@.len() - 1] == x);
                                        }
                                    }
                                    assert forall|i: int| 0 <= i < queue@.len() implies (#[trigger] queue@[i]) < n
                                        && dist@[queue@[i] as int] != INVALID_CELL by {
                                        if i < queue@.len() - 1 {
                                            assert(queue@[i] == queue@.drop_last()[i]);
                                        }
                                    }
                                    assert forall|j: int|
                                        0 <= j < k implies dist@[(#[trigger] nb[cell as int]@[j]) as int] != INVALID_CELL && dist@[nb[cell as int]@[j] as int]
                                            <= d + 1 by {
                                        let y = nb[cell as int]@[j] as int;
                                        if y != next {
                                            assert(dist@[y] == before[y]);
                                        }
                                    }
                                }
                            }
                        }
                    }
                    k += 1;
                }
                proof {
                    assert forall|x: int, y: int|
                        0 <= x < n && dist@[x] != INVALID_CELL && !in_queue(queue@, x) && #[trigger] list_step(nb, x, y)
                            implies dist@[y] != INVALID_CELL && dist@[y] <= dist@[x] + 1 by {
                        if x == cell {
                            let j = choose|j: int| 0 <= x < nb.len() && 0 <= j < nb[x]@.len() && #[trigger] nb[x]@[j] == y;
                            assert(nb[cell as int]@[j] == y);
                        }
                    }
                    lemma_set_count_le(dist@);
                }
            },
        }
    }
    proof {
        let inside = |x: int| 0 <= x < n && dist@[x] != INVALID_CELL;
        let pot = |x: int| dist@[x] as int;
        assert forall|x: int, y: int| inside(x) && #[trigger] step(x, y) implies inside(y) && pot(y) <= pot(x) + 1 by {
            assert(list_step(nb, x, y));
            assert(!in_queue(queue@, x));
        }
        assert forall|i: int| 0 <= i < srcs.len() implies inside(#[trigger] srcs[i] as int) && pot(srcs[i] as int) <= 0 by {}
        assert forall|x: int| 0 <= x < n implies {
            &&& (#[trigger] dist@[x] == INVALID_CELL <==> !reachable_from(step, srcs, x))
            &&& dist@[x] != INVALID_CELL ==> reaches_from(step, srcs, x, dist@[x] as nat) && forall|k: nat|
                k < dist@[x] ==> !#[trigger] reaches_from(step, srcs, x, k)
        } by {
            if reachable_from(step, srcs, x) {
                let k = choose|k: nat| #[trigger] reaches_from(step, srcs, x, k);
                let i = choose|i: int| 0 <= i < srcs.len() && #[trigger] reaches_in(step, srcs[i] as int, x, k);
                assert(inside(srcs[i] as int) && pot(srcs[i] as int) <= 0);
                lemma_closed_bound(step, inside, pot, srcs[i] as int, x, k);
            }
            if dist@[x] != INVALID_CELL {
                assert(reaches_from(step, srcs, x, dist@[x] as nat));
                assert forall|k: nat| k < dist@[x] implies !#[trigger] reaches_from(step, srcs, x, k) by {
                    if reaches_from(step, srcs, x, k) {
                        let i = choose|i: int| 0 <= i < srcs.len() && #[trigger] reaches_in(step, srcs[i] as int, x, k);
                        assert(inside(srcs[i] as int) && pot(srcs[i] as int) <= 0);
                        lemma_closed_bound(step, inside, pot, srcs[i] as int, x, k);
                    }
                }
            }
        }
    }
    dist
}



} // verus!
