use vstd::prelude::*;

use crate::compiled_board::{CompiledBoard, INVALID_CELL};
use crate::dense_state::{copy_cells, initial_pairs, lemma_pairs_sorted_cells};
use crate::graph::{lemma_least_hops, reachable, reaches_in};
use crate::improvement::box_rescheduling::{replay_to_offset, saving, PartialState};
use crate::improvement::push_bfs::{copy_pushes, same_pairs};
use crate::improvement::{
    ahead, apply_push, boxes_after, copy_window, keeper_after, lemma_boxes_after_concat, lemma_moves_in_range,
    lemma_moves_on_board,
    lemma_prefix_ok, lemma_push_boxes, lemma_push_on_board, lemma_splice, moves_ok, on_board, splice_pushes, start_boxes,
    walk_cells_ok, walk_steps,
};
use crate::position::{spec_opposite, Direction};
use crate::reachability::{contains_cell, has_cell, keeper_distance, sorted_cells, walks};
use crate::sorting::{lemma_pairs_sort_unique, pairs_sorted};

verus! {

broadcast use vstd::std_specs::vec::group_vec_axioms;

/// The most pushes of a window whose orders are all tried.
pub const MAX_WINDOW: usize = 6;

/// The most rounds of reordering; every round but the last replaces some
/// window by a cheaper order.
pub const MAX_ROUNDS: usize = 10000;

/// The moves of the pushes from the keeper on `keeper`, every push checked:
/// for every push, the shortest walk to the cell behind the box plus the
/// push. `None` when a push names no box, when the cell behind or ahead of
/// its box is no cell or holds a box, or when the keeper cannot walk behind
/// the box.
pub open spec fn sim_cost(cb: &CompiledBoard, keeper: int, boxes: Seq<(u16, u8)>, pushes: Seq<(usize, Direction)>) -> Option<int>
    decreases pushes.len(),
{
    if pushes.len() == 0 {
        Some(0)
    } else {
        let q = pushes.drop_last();
        match sim_cost(cb, keeper, boxes, q) {
            None => None,
            Some(c) => {
                let before = boxes_after(cb, boxes, q);
                let k = keeper_after(cb, keeper, boxes, q);
                let bi = pushes.last().0 as int;
                if bi >= before.len() {
                    None
                } else {
                    let cell = before[bi].0 as int;
                    let from = ahead(cb, cell, spec_opposite(pushes.last().1)) as int;
                    let target = ahead(cb, cell, pushes.last().1) as int;
                    if from == INVALID_CELL || target == INVALID_CELL || has_cell(before, target) || has_cell(before, from) {
                        None
                    } else {
                        match walk_steps(cb, before, k, from) {
                            Some(w) => Some(c + w + 1),
                            None => None,
                        }
                    }
                }
            }
        }
    }
}

/// The boxes after the pushes, up to the first push that names no box or
/// has no cell ahead of its box; the flag tells whether such a push stopped
/// the moves.
pub open spec fn sim_boxes(cb: &CompiledBoard, boxes: Seq<(u16, u8)>, pushes: Seq<(usize, Direction)>) -> (bool, Seq<(u16, u8)>)
    decreases pushes.len(),
{
    if pushes.len() == 0 {
        (false, boxes)
    } else {
        let (stopped, before) = sim_boxes(cb, boxes, pushes.drop_last());
        let bi = pushes.last().0 as int;
        if stopped {
            (true, before)
        } else if bi >= before.len() || ahead(cb, before[bi].0 as int, pushes.last().1) == INVALID_CELL {
            (true, before)
        } else {
            (false, crate::improvement::push_boxes(cb, before, bi, pushes.last().1))
        }
    }
}

/// `p` holds the pushes of `w`, each once, in some order: `sigma` picks
/// for every place of `p` a different place of `w`.
pub open spec fn reorders_by(p: Seq<(usize, Direction)>, w: Seq<(usize, Direction)>, sigma: Seq<usize>) -> bool {
    &&& p.len() == w.len()
    &&& sigma.len() == w.len()
    &&& forall|j: int| 0 <= j < sigma.len() ==> (#[trigger] sigma[j]) < w.len()
    &&& forall|a: int, b: int| 0 <= a < b < sigma.len() ==> #[trigger] sigma[a] != #[trigger] sigma[b]
    &&& forall|j: int| 0 <= j < p.len() ==> #[trigger] p[j] == w[sigma[j] as int]
}

/// `p` holds the pushes of `w` in some order.
pub open spec fn reorders(p: Seq<(usize, Direction)>, w: Seq<(usize, Direction)>) -> bool {
    exists|sigma: Seq<usize>| #[trigger] reorders_by(p, w, sigma)
}

/// A checked simulation that succeeds moves boxes from cells of the board
/// onto cells of the board, as the unchecked moves do.
proof fn lemma_sim_ok(cb: &CompiledBoard, keeper: int, boxes: Seq<(u16, u8)>, pushes: Seq<(usize, Direction)>)
    requires
        cb.wf(),
        on_board(cb, boxes),
        sim_cost(cb, keeper, boxes, pushes) is Some,
    ensures
        moves_ok(cb, boxes, pushes),
        sim_boxes(cb, boxes, pushes) == (false, boxes_after(cb, boxes, pushes)),
    decreases pushes.len(),
{
    if pushes.len() > 0 {
        let q = pushes.drop_last();
        lemma_sim_ok(cb, keeper, boxes, q);
        cb.lemma_wf();
        lemma_moves_on_board(cb, boxes, q);
    }
}

/// The boxes after the pushes, up to the first push that names no box or
/// has no cell ahead of its box.
pub fn simulate_final_boxes(cb: &CompiledBoard, state: &PartialState, sequence: &[(usize, Direction)]) -> (boxes: Vec<(u16, u8)>)
    requires
        cb.wf(),
        on_board(cb, state.box_cells@),
    ensures
        boxes@ == sim_boxes(cb, state.box_cells@, sequence@).1,
{
    let ghost b0 = state.box_cells@;
    let ghost seq = sequence@;
    let mut box_cells = copy_cells(&state.box_cells);
    let mut i: usize = 0;
    proof {
        assert(seq.take(0) =~= Seq::<(usize, Direction)>::empty());
    }
    while i < sequence.len()
        invariant
            cb.wf(),
            b0 == state.box_cells@,
            seq == sequence@,
            i <= seq.len(),
            on_board(cb, box_cells@),
            sim_boxes(cb, b0, seq.take(i as int)) == (false, box_cells@),
            box_cells@ == boxes_after(cb, b0, seq.take(i as int)),
        decreases seq.len() - i,
    {
        let (box_index, dir) = sequence[i];
        proof {
            assert(seq.take(i + 1).drop_last() =~= seq.take(i as int));
            assert(seq.take(i + 1).last() == (box_index, dir));
        }
        if box_index >= box_cells.len() {
            proof {
                lemma_sim_stopped(cb, b0, seq, i + 1, seq.len() as int);
                assert(seq.take(seq.len() as int) =~= seq);
            }
            return box_cells;
        }
        let box_cell = box_cells[box_index].0;
        let target = cb.neighbor(box_cell, dir);
        if target == INVALID_CELL {
            proof {
                lemma_sim_stopped(cb, b0, seq, i + 1, seq.len() as int);
                assert(seq.take(seq.len() as int) =~= seq);
            }
            return box_cells;
        }
        proof {
            cb.lemma_wf();
            lemma_push_on_board(cb, box_cells@, box_index as int, dir);
        }
        apply_push(cb, &mut box_cells, box_index, dir);
        i += 1;
    }
    proof {
        assert(seq.take(i as int) =~= seq);
    }
    box_cells
}

/// Once the moves have stopped, longer prefixes end on the same boxes.
proof fn lemma_sim_stopped(cb: &CompiledBoard, boxes: Seq<(u16, u8)>, pushes: Seq<(usize, Direction)>, i: int, j: int)
    requires
        0 <= i <= j <= pushes.len(),
        sim_boxes(cb, boxes, pushes.take(i)).0,
    ensures
        sim_boxes(cb, boxes, pushes.take(j)) == sim_boxes(cb, boxes, pushes.take(i)),
    decreases j - i,
{
    if i < j {
        lemma_sim_stopped(cb, boxes, pushes, i, j - 1);
        assert(pushes.take(j).drop_last() =~= pushes.take(j - 1));
    }
}

/// Once the cost of a prefix is none, so is that of every longer prefix.
proof fn lemma_sim_none_extends(
    cb: &CompiledBoard,
    keeper: int,
    boxes: Seq<(u16, u8)>,
    pushes: Seq<(usize, Direction)>,
    i: int,
    j: int,
)
    requires
        0 <= i <= j <= pushes.len(),
        sim_cost(cb, keeper, boxes, pushes.take(i)) is None,
    ensures
        sim_cost(cb, keeper, boxes, pushes.take(j)) is None,
    decreases j - i,
{
    if i < j {
        lemma_sim_none_extends(cb, keeper, boxes, pushes, i, j - 1);
        assert(pushes.take(j).drop_last() =~= pushes.take(j - 1));
    }
}

/// The moves of pushing `sequence` from `state`, every push checked, or
/// `None` when a push is not possible.
pub fn simulate_moves(cb: &CompiledBoard, state: &PartialState, sequence: &[(usize, Direction)]) -> (r: Option<u32>)
    requires
        cb.wf(),
        state.keeper < cb.cell_count || state.keeper == INVALID_CELL,
        sorted_cells(state.box_cells@),
        on_board(cb, state.box_cells@),
        65535 * sequence@.len() <= u32::MAX,
    ensures
        match r {
            Some(m) => sim_cost(cb, state.keeper as int, state.box_cells@, sequence@) == Some(m as int),
            None => sim_cost(cb, state.keeper as int, state.box_cells@, sequence@) is None,
        },
{
    proof {
        cb.lemma_wf();
    }
    let ghost k0 = state.keeper as int;
    let ghost b0 = state.box_cells@;
    let ghost seq = sequence@;
    let mut moves: u32 = 0;
    let mut keeper = state.keeper;
    let mut box_cells = copy_cells(&state.box_cells);
    let mut i: usize = 0;
    proof {
        assert(seq.take(0) =~= Seq::<(usize, Direction)>::empty());
    }
    while i < sequence.len()
        invariant
            cb.wf(),
            crate::compiled_board::nbrs_ok(cb.nbrs(), cb.cell_count as int),
            k0 == state.keeper as int,
            b0 == state.box_cells@,
            seq == sequence@,
            i <= seq.len(),
            on_board(cb, box_cells@),
            65535 * seq.len() <= u32::MAX,
            keeper == keeper_after(cb, k0, b0, seq.take(i as int)),
            keeper < cb.cell_count || keeper == INVALID_CELL,
            box_cells@ == boxes_after(cb, b0, seq.take(i as int)),
            sorted_cells(box_cells@),
            sim_cost(cb, k0, b0, seq.take(i as int)) == Some(moves as int),
            moves <= 65535 * i,
        decreases seq.len() - i,
    {
        let (box_index, dir) = sequence[i];
        proof {
            assert(seq.take(i + 1).drop_last() =~= seq.take(i as int));
            assert(seq.take(i + 1).last() == (box_index, dir));
        }
        if box_index >= box_cells.len() {
            proof {
                lemma_sim_none_extends(cb, k0, b0, seq, i + 1, seq.len() as int);
                assert(seq.take(seq.len() as int) =~= seq);
            }
            return None;
        }
        let box_cell = box_cells[box_index].0;
        let push_from = cb.neighbor(box_cell, dir.opposite());
        let target = cb.neighbor(box_cell, dir);
        if push_from == INVALID_CELL || target == INVALID_CELL || contains_cell(&box_cells, target) || contains_cell(
            &box_cells,
            push_from,
        ) {
            proof {
                lemma_sim_none_extends(cb, k0, b0, seq, i + 1, seq.len() as int);
                assert(seq.take(seq.len() as int) =~= seq);
            }
            return None;
        }
        let dist = keeper_distance(cb, keeper, push_from, &box_cells);
        let ghost step = walks(cb.nbrs(), box_cells@);
        match dist {
            Some(d) => {
                proof {
                    if keeper != push_from {
                        assert(reachable(step, keeper as int, push_from as int)) by {
                            assert(reaches_in(step, keeper as int, push_from as int, d as nat));
                        }
                        lemma_least_hops(step, keeper as int, push_from as int, d as nat);
                    }
                    assert(65535 * i + 65535 <= 65535 * seq.len()) by (nonlinear_arith)
                        requires
                            i < seq.len(),
                    ;
                }
                moves = moves + d + 1;
            },
            None => {
                proof {
                    lemma_sim_none_extends(cb, k0, b0, seq, i + 1, seq.len() as int);
                    assert(seq.take(seq.len() as int) =~= seq);
                }
                return None;
            },
        }
        proof {
            lemma_push_on_board(cb, box_cells@, box_index as int, dir);
        }
        keeper = apply_push(cb, &mut box_cells, box_index, dir);
        proof {
            lemma_push_boxes(cb, boxes_after(cb, b0, seq.take(i as int)), box_index as int, dir);
            lemma_pairs_sorted_cells(box_cells@);
        }
        i += 1;
    }
    proof {
        assert(seq.take(i as int) =~= seq);
    }
    Some(moves)
}

/// The moves of the whole push sequence from the start, with the boxes in
/// the order the board lists them; `u32::MAX` when a push is not possible.
pub fn count_total_moves(cb: &CompiledBoard, pushes: &[(usize, Direction)]) -> (m: u32)
    requires
        cb.wf(),
        sorted_cells(initial_pairs(cb)),
        on_board(cb, initial_pairs(cb)),
        65535 * pushes@.len() <= u32::MAX,
    ensures
        m == crate::improvement::cost_value(sim_cost(cb, cb.robot_cell as int, initial_pairs(cb), pushes@)),
{
    proof {
        cb.lemma_wf();
    }
    let mut box_cells: Vec<(u16, u8)> = Vec::new();
    let mut i: usize = 0;
    while i < cb.initial_box_cells.len()
        invariant
            i <= cb.initial_box_cells@.len(),
            box_cells@ == initial_pairs(cb).take(i as int),
        decreases cb.initial_box_cells@.len() - i,
    {
        let (c, l) = cb.initial_box_cells[i];
        box_cells.push((c, l.0));
        proof {
            assert(initial_pairs(cb).take(i + 1) =~= initial_pairs(cb).take(i as int).push((c, l.0)));
        }
        i += 1;
    }
    proof {
        assert(initial_pairs(cb).take(i as int) =~= initial_pairs(cb));
    }
    let state = PartialState { keeper: cb.robot_cell, box_cells };
    match simulate_moves(cb, &state, pushes) {
        Some(m) => m,
        None => u32::MAX,
    }
}

/// The pushes of `w` in the order `sigma`: place `j` holds push `sigma[j]`.
pub open spec fn permuted(w: Seq<(usize, Direction)>, sigma: Seq<usize>) -> Seq<(usize, Direction)> {
    Seq::new(sigma.len(), |j: int| w[sigma[j] as int])
}

/// `sigma` is an order of `n` places: every place once.
pub open spec fn is_order(sigma: Seq<usize>, n: int) -> bool {
    &&& sigma.len() == n
    &&& forall|j: int| 0 <= j < n ==> (#[trigger] sigma[j]) < n
    &&& forall|a: int, b: int| 0 <= a < b < n ==> #[trigger] sigma[a] != #[trigger] sigma[b]
}

/// `q` can be pushed from the state (its checked moves exist) and ends with
/// the boxes `w` ends with.
pub open spec fn candidate(
    cb: &CompiledBoard,
    keeper: int,
    boxes: Seq<(u16, u8)>,
    w: Seq<(usize, Direction)>,
    q: Seq<(usize, Direction)>,
) -> bool {
    &&& sim_cost(cb, keeper, boxes, q) is Some
    &&& sim_boxes(cb, boxes, q).1 == sim_boxes(cb, boxes, w).1
}

/// The best order so far: `best` costs `cost`, fewer moves than the window's
/// own `original`; with no best order, `cost` is `original`.
pub open spec fn best_ok(
    cb: &CompiledBoard,
    keeper: int,
    boxes: Seq<(u16, u8)>,
    w: Seq<(usize, Direction)>,
    original: u32,
    cost: u32,
    best: Option<Vec<(usize, Direction)>>,
) -> bool {
    &&& cost <= original
    &&& best matches Some(p) ==> {
        &&& reorders(p@, w)
        &&& candidate(cb, keeper, boxes, w, p@)
        &&& sim_cost(cb, keeper, boxes, p@) == Some(cost as int)
        &&& cost < original
    }
    &&& best is None ==> cost == original
}

/// Tries every order that begins with `prefix`, in increasing order of the
/// next place, and keeps the first that is cheaper than the best so far.
#[verifier::spinoff_prover]
#[verifier::rlimit(80)]
fn search_orders(
    cb: &CompiledBoard,
    state: &PartialState,
    window: &[(usize, Direction)],
    orig_final: &Vec<(u16, u8)>,
    original: u32,
    prefix: &mut Vec<usize>,
    used: &mut Vec<bool>,
    best_cost: &mut u32,
    best_perm: &mut Option<Vec<(usize, Direction)>>,
)
    requires
        cb.wf(),
        state.keeper < cb.cell_count || state.keeper == INVALID_CELL,
        sorted_cells(state.box_cells@),
        on_board(cb, state.box_cells@),
        65535 * window@.len() <= u32::MAX,
        orig_final@ == sim_boxes(cb, state.box_cells@, window@).1,
        sim_cost(cb, state.keeper as int, state.box_cells@, window@) == Some(original as int),
        old(prefix)@.len() <= window@.len(),
        old(used)@.len() == window@.len(),
        forall|j: int| 0 <= j < old(prefix)@.len() ==> (#[trigger] old(prefix)@[j]) < window@.len(),
        forall|a: int, b: int|
            0 <= a < b < old(prefix)@.len() ==> #[trigger] old(prefix)@[a] != #[trigger] old(prefix)@[b],
        forall|v: int| 0 <= v < window@.len() ==> (#[trigger] old(used)@[v] <==> old(prefix)@.contains(v as usize)),
        best_ok(cb, state.keeper as int, state.box_cells@, window@, original, *old(best_cost), *old(best_perm)),
    ensures
        final(prefix)@ == old(prefix)@,
        final(used)@ == old(used)@,
        *final(best_cost) <= *old(best_cost),
        best_ok(cb, state.keeper as int, state.box_cells@, window@, original, *final(best_cost), *final(best_perm)),
        forall|sigma: Seq<usize>|
            is_order(sigma, window@.len() as int) && sigma.take(old(prefix)@.len() as int) == old(prefix)@
                && #[trigger] candidate(cb, state.keeper as int, state.box_cells@, window@, permuted(window@, sigma))
                ==> *final(best_cost) <= sim_cost(cb, state.keeper as int, state.box_cells@, permuted(window@, sigma))->0,
    decreases window@.len() - old(prefix)@.len(),
{
    let ghost k0 = state.keeper as int;
    let ghost b0 = state.box_cells@;
    let ghost w = window@;
    let ghost pre = prefix@;
    let n = window.len();
    if prefix.len() == n {
        let mut perm_buf: Vec<(usize, Direction)> = Vec::new();
        let mut j: usize = 0;
        while j < n
            invariant
                n == w.len(),
                w == window@,
                j <= n,
                prefix@ == pre,
                pre.len() == n,
                forall|q: int| 0 <= q < n ==> (#[trigger] pre[q]) < n,
                perm_buf@ == permuted(w, pre.take(j as int)),
            decreases n - j,
        {
            perm_buf.push(window[prefix[j]]);
            proof {
                assert(perm_buf@ =~= permuted(w, pre.take(j + 1)));
            }
            j += 1;
        }
        proof {
            assert(pre.take(n as int) =~= pre);
            assert forall|sigma: Seq<usize>| is_order(sigma, n as int) && sigma.take(n as int) == pre implies sigma
                == pre by {
                assert(sigma =~= sigma.take(n as int));
            }
        }
        match simulate_moves(cb, state, &perm_buf) {
            Some(cost) => {
                let perm_final = simulate_final_boxes(cb, state, &perm_buf);
                if same_pairs(&perm_final, orig_final) && cost < *best_cost {
                    proof {
                        assert(reorders_by(perm_buf@, w, pre));
                    }
                    *best_cost = cost;
                    *best_perm = Some(copy_pushes(&perm_buf));
                }
            },
            None => {},
        }
        return;
    }
    let ghost used0 = used@;
    let mut v: usize = 0;
    while v < n
        invariant
            cb.wf(),
            state.keeper < cb.cell_count || state.keeper == INVALID_CELL,
            sorted_cells(state.box_cells@),
            on_board(cb, state.box_cells@),
            k0 == state.keeper as int,
            b0 == state.box_cells@,
            w == window@,
            n == w.len(),
            65535 * w.len() <= u32::MAX,
            orig_final@ == sim_boxes(cb, b0, w).1,
            sim_cost(cb, k0, b0, w) == Some(original as int),
            prefix@ == pre,
            pre == old(prefix)@,
            used@ == used0,
            pre.len() < n,
            used0.len() == n,
            forall|j: int| 0 <= j < pre.len() ==> (#[trigger] pre[j]) < n,
            forall|a: int, b: int| 0 <= a < b < pre.len() ==> #[trigger] pre[a] != #[trigger] pre[b],
            forall|x: int| 0 <= x < n ==> (#[trigger] used0[x] <==> pre.contains(x as usize)),
            v <= n,
            best_ok(cb, k0, b0, w, original, *best_cost, *best_perm),
            *best_cost <= *old(best_cost),
            forall|sigma: Seq<usize>|
                is_order(sigma, n as int) && sigma.take(pre.len() as int) == pre && sigma[pre.len() as int] < v
                    && #[trigger] candidate(cb, k0, b0, w, permuted(w, sigma)) ==> *best_cost <= sim_cost(
                    cb,
                    k0,
                    b0,
                    permuted(w, sigma),
                )->0,
        decreases n - v,
    {
        if !used[v] {
            used.set(v, true);
            prefix.push(v);
            let ghost cost_before = *best_cost;
            proof {
                assert forall|x: int| 0 <= x < n implies (#[trigger] used@[x] <==> prefix@.contains(x as usize)) by {
                    if x == v {
                        assert(prefix@[pre.len() as int] == v);
                    } else {
                        if prefix@.contains(x as usize) {
                            let k = choose|k: int| 0 <= k < prefix@.len() && prefix@[k] == x as usize;
                            assert(pre[k] == x as usize);
                        }
                        if pre.contains(x as usize) {
                            let k = choose|k: int| 0 <= k < pre.len() && pre[k] == x as usize;
                            assert(prefix@[k] == x as usize);
                        }
                    }
                }
                assert forall|a: int, b: int| 0 <= a < b < prefix@.len() implies #[trigger] prefix@[a]
                    != #[trigger] prefix@[b] by {
                    if b == pre.len() {
                        if prefix@[a] == v {
                            assert(pre[a] == v);
                            assert(pre.contains(v));
                        }
                    }
                }
            }
            search_orders(cb, state, window, orig_final, original, prefix, used, best_cost, best_perm);
            prefix.pop();
            used.set(v, false);
            proof {
                assert(prefix@ =~= pre);
                assert(used@ =~= used0);
                assert forall|sigma: Seq<usize>|
                    is_order(sigma, n as int) && sigma.take(pre.len() as int) == pre && sigma[pre.len() as int] < v + 1
                        && #[trigger] candidate(cb, k0, b0, w, permuted(w, sigma)) implies *best_cost <= sim_cost(
                        cb,
                        k0,
                        b0,
                        permuted(w, sigma),
                    )->0 by {
                    if sigma[pre.len() as int] == v {
                        assert(sigma.take(pre.len() as int + 1) =~= pre.push(v));
                    }
                }
            }
        } else {
            proof {
                assert forall|sigma: Seq<usize>|
                    is_order(sigma, n as int) && sigma.take(pre.len() as int) == pre && sigma[pre.len() as int] < v + 1
                        && #[trigger] candidate(cb, k0, b0, w, permuted(w, sigma)) implies *best_cost <= sim_cost(
                        cb,
                        k0,
                        b0,
                        permuted(w, sigma),
                    )->0 by {
                    if sigma[pre.len() as int] == v {
                        let k = choose|k: int| 0 <= k < pre.len() && pre[k] == v;
                        assert(sigma.take(pre.len() as int)[k] == sigma[k]);
                        assert(sigma[k] == sigma[pre.len() as int]);
                    }
                }
            }
        }
        v += 1;
    }
}

/// The order of the window's pushes, among all orders that can be pushed
/// from `state` and end with the boxes the window ends with, with the
/// fewest checked moves, when that is fewer than the window's own: every
/// order of the window's places is tried, in lexicographic order, and the
/// first of the cheapest is kept. `None` when no order is cheaper, or the
/// window itself cannot be pushed.
pub fn find_best_permutation(cb: &CompiledBoard, state: &PartialState, window: &[(usize, Direction)]) -> (r: Option<
    Vec<(usize, Direction)>,
>)
    requires
        cb.wf(),
        state.keeper < cb.cell_count || state.keeper == INVALID_CELL,
        sorted_cells(state.box_cells@),
        on_board(cb, state.box_cells@),
        65535 * window@.len() <= u32::MAX,
    ensures
        sim_cost(cb, state.keeper as int, state.box_cells@, window@) is None ==> r is None,
        r matches Some(p) ==> {
            &&& reorders(p@, window@)
            &&& sim_cost(cb, state.keeper as int, state.box_cells@, p@) is Some
            &&& sim_cost(cb, state.keeper as int, state.box_cells@, window@) is Some
            &&& sim_cost(cb, state.keeper as int, state.box_cells@, p@)->0 < sim_cost(
                cb,
                state.keeper as int,
                state.box_cells@,
                window@,
            )->0
            &&& sim_boxes(cb, state.box_cells@, p@) == sim_boxes(cb, state.box_cells@, window@)
            &&& forall|q: Seq<(usize, Direction)>|
                reorders(q, window@) && #[trigger] candidate(cb, state.keeper as int, state.box_cells@, window@, q)
                    ==> sim_cost(cb, state.keeper as int, state.box_cells@, p@)->0 <= sim_cost(
                    cb,
                    state.keeper as int,
                    state.box_cells@,
                    q,
                )->0
        },
        r is None && sim_cost(cb, state.keeper as int, state.box_cells@, window@) is Some ==> forall|
            q: Seq<(usize, Direction)>,
        |
            reorders(q, window@) && #[trigger] candidate(cb, state.keeper as int, state.box_cells@, window@, q)
                ==> sim_cost(cb, state.keeper as int, state.box_cells@, window@)->0 <= sim_cost(
                cb,
                state.keeper as int,
                state.box_cells@,
                q,
            )->0,
{
    let ghost k0 = state.keeper as int;
    let ghost b0 = state.box_cells@;
    let ghost w = window@;
    let n = window.len();
    let original_cost = match simulate_moves(cb, state, window) {
        Some(c) => c,
        None => {
            return None;
        },
    };
    let orig_final = simulate_final_boxes(cb, state, window);
    let mut best_cost = original_cost;
    let mut best_perm: Option<Vec<(usize, Direction)>> = None;
    let mut prefix: Vec<usize> = Vec::new();
    let mut used: Vec<bool> = Vec::new();
    let mut t: usize = 0;
    while t < n
        invariant
            t <= n,
            used@.len() == t,
            forall|x: int| 0 <= x < t ==> !#[trigger] used@[x],
        decreases n - t,
    {
        used.push(false);
        t += 1;
    }
    search_orders(cb, state, window, &orig_final, original_cost, &mut prefix, &mut used, &mut best_cost, &mut best_perm);
    proof {
        assert forall|q: Seq<(usize, Direction)>|
            reorders(q, w) && #[trigger] candidate(cb, k0, b0, w, q) implies best_cost <= sim_cost(cb, k0, b0, q)->0 by {
            let sigma = choose|sigma: Seq<usize>| #[trigger] reorders_by(q, w, sigma);
            assert(q =~= permuted(w, sigma));
            assert(sigma.take(0) =~= Seq::<usize>::empty());
            assert(is_order(sigma, n as int));
        }
        if best_perm is Some {
            let p = best_perm->0@;
            lemma_sim_ok(cb, k0, b0, p);
            lemma_sim_ok(cb, k0, b0, w);
        }
    }
    best_perm
}

/// A cheaper order of a window of fine pushes keeps the sequence fine, its
/// final boxes and its number of pushes.
#[verifier::spinoff_prover]
#[verifier::rlimit(40)]
proof fn lemma_reorder_splice(
    cb: &CompiledBoard,
    start: Seq<(u16, u8)>,
    p: Seq<(usize, Direction)>,
    offset: int,
    ws: int,
    pre_keeper: int,
    pre_boxes: Seq<(u16, u8)>,
    window: Seq<(usize, Direction)>,
    better: Seq<(usize, Direction)>,
)
    requires
        cb.wf(),
        moves_ok(cb, start, p),
        0 <= offset,
        0 <= ws,
        offset + ws <= p.len(),
        window == p.subrange(offset, offset + ws),
        pre_boxes == boxes_after(cb, start, p.take(offset)),
        on_board(cb, pre_boxes),
        sim_cost(cb, pre_keeper, pre_boxes, better) is Some,
        sim_cost(cb, pre_keeper, pre_boxes, window) is Some,
        sim_boxes(cb, pre_boxes, better) == sim_boxes(cb, pre_boxes, window),
        reorders(better, window),
    ensures
        moves_ok(cb, start, p.take(offset) + better + p.skip(offset + ws)),
        boxes_after(cb, start, p.take(offset) + better + p.skip(offset + ws)) == boxes_after(cb, start, p),
        (p.take(offset) + better + p.skip(offset + ws)).len() == p.len(),
{
    lemma_sim_ok(cb, pre_keeper, pre_boxes, better);
    lemma_sim_ok(cb, pre_keeper, pre_boxes, window);
    assert(p.take(offset + ws) =~= p.take(offset) + window);
    lemma_boxes_after_concat(cb, start, p.take(offset), window);
    let sigma = choose|sigma: Seq<usize>| #[trigger] reorders_by(better, window, sigma);
    assert(better.len() == window.len());
    lemma_splice(cb, start, p, offset, ws, better);
}


/// `after` is `before` with its `ws` pushes at `offset` put in another
/// order that ends with the same boxes and costs fewer moves.
pub open spec fn window_permuted(
    cb: &CompiledBoard,
    before: Seq<(usize, Direction)>,
    after: Seq<(usize, Direction)>,
    offset: int,
    ws: int,
) -> bool {
    let start = start_boxes(cb);
    let keeper = keeper_after(cb, cb.robot_cell as int, start, before.take(offset));
    let boxes = boxes_after(cb, start, before.take(offset));
    let window = before.subrange(offset, offset + ws);
    exists|better: Seq<(usize, Direction)>|
        #[trigger] reorders(better, window) && after == before.take(offset) + better + before.skip(offset + ws)
            && sim_cost(cb, keeper, boxes, better) is Some && sim_cost(cb, keeper, boxes, window) is Some
            && sim_cost(cb, keeper, boxes, better)->0 < sim_cost(cb, keeper, boxes, window)->0
            && sim_boxes(cb, boxes, better) == sim_boxes(cb, boxes, window)
}

/// No order of the `ws` pushes of `p` at `offset` that can be pushed and
/// ends with the same boxes costs fewer moves than the window's own, when
/// the window itself can be pushed.
pub open spec fn window_optimal(cb: &CompiledBoard, p: Seq<(usize, Direction)>, offset: int, ws: int) -> bool {
    let start = start_boxes(cb);
    let keeper = keeper_after(cb, cb.robot_cell as int, start, p.take(offset));
    let boxes = boxes_after(cb, start, p.take(offset));
    let window = p.subrange(offset, offset + ws);
    sim_cost(cb, keeper, boxes, window) is Some ==> forall|q: Seq<(usize, Direction)>|
        reorders(q, window) && #[trigger] candidate(cb, keeper, boxes, window, q) ==> sim_cost(cb, keeper, boxes, window)->0
            <= sim_cost(cb, keeper, boxes, q)->0
}

/// Every window of 2 to `MAX_WINDOW` pushes of `p` is optimal.
pub open spec fn all_windows_optimal(cb: &CompiledBoard, p: Seq<(usize, Direction)>) -> bool {
    forall|offset: int, ws: int|
        2 <= ws <= MAX_WINDOW && 0 <= offset && offset + ws <= p.len() ==> #[trigger] window_optimal(cb, p, offset, ws)
}

/// An optimal window admits no cheaper order.
proof fn lemma_optimal_not_permuted(
    cb: &CompiledBoard,
    before: Seq<(usize, Direction)>,
    after: Seq<(usize, Direction)>,
    offset: int,
    ws: int,
)
    requires
        window_optimal(cb, before, offset, ws),
    ensures
        !window_permuted(cb, before, after, offset, ws),
{
    if window_permuted(cb, before, after, offset, ws) {
        let start = start_boxes(cb);
        let keeper = keeper_after(cb, cb.robot_cell as int, start, before.take(offset));
        let boxes = boxes_after(cb, start, before.take(offset));
        let window = before.subrange(offset, offset + ws);
        let better = choose|better: Seq<(usize, Direction)>|
            #[trigger] reorders(better, window) && after == before.take(offset) + better + before.skip(offset + ws)
                && sim_cost(cb, keeper, boxes, better) is Some && sim_cost(cb, keeper, boxes, window) is Some
                && sim_cost(cb, keeper, boxes, better)->0 < sim_cost(cb, keeper, boxes, window)->0
                && sim_boxes(cb, boxes, better) == sim_boxes(cb, boxes, window);
        assert(candidate(cb, keeper, boxes, window, better));
    }
}

/// Puts the cheapest order of the `ws` pushes at `offset` in their place,
/// when one is cheaper than theirs. Returns whether it did.
fn reorder_best(cb: &CompiledBoard, pushes: &mut Vec<(usize, Direction)>, offset: usize, ws: usize) -> (changed: bool)
    requires
        cb.wf(),
        on_board(cb, start_boxes(cb)),
        pairs_sorted(start_boxes(cb)),
        moves_ok(cb, start_boxes(cb), old(pushes)@),
        offset + ws <= old(pushes)@.len(),
        ws <= MAX_WINDOW,
    ensures
        moves_ok(cb, start_boxes(cb), final(pushes)@),
        boxes_after(cb, start_boxes(cb), final(pushes)@) == boxes_after(cb, start_boxes(cb), old(pushes)@),
        final(pushes)@.len() == old(pushes)@.len(),
        !changed ==> final(pushes)@ == old(pushes)@,
        changed ==> window_permuted(cb, old(pushes)@, final(pushes)@, offset as int, ws as int),
        !changed ==> window_optimal(cb, old(pushes)@, offset as int, ws as int),
{
    let ghost start = start_boxes(cb);
    let ghost p = pushes@;
    let _n = pushes.len();
    proof {
        cb.lemma_wf();
        lemma_prefix_ok(cb, start, p, offset as int);
        lemma_moves_in_range(cb, start, p.take(offset as int));
    }
    let window = copy_window(pushes, offset, offset + ws);
    let pre_state = replay_to_offset(cb, pushes, offset);
    let ghost pre_boxes = pre_state.box_cells@;
    proof {
        lemma_moves_on_board(cb, start, p.take(offset as int));
        lemma_pairs_sorted_cells(pre_boxes);
        if offset > 0 {
            assert(p.take(offset as int).drop_last().len() + 1 == offset);
        }
    }
    match find_best_permutation(cb, &pre_state, &window) {
        Some(better) => {
            proof {
                lemma_reorder_splice(cb, start, p, offset as int, ws as int, pre_state.keeper as int, pre_boxes, window@, better@);
            }
            splice_pushes(pushes, offset, ws, &better);
            proof {
                assert(reorders(better@, window@));
                assert(window_permuted(cb, p, pushes@, offset as int, ws as int));
            }
            true
        },
        None => {
            proof {
                assert(window@ == p.subrange(offset as int, offset + ws));
            }
            false
        },
    }
}

/// `b` is `a` with one window of 2 to `MAX_WINDOW` pushes put in another
/// order that ends with the same boxes and costs fewer moves.
#[verifier::opaque]
pub open spec fn reorder_step(cb: &CompiledBoard, a: Seq<(usize, Direction)>, b: Seq<(usize, Direction)>) -> bool {
    exists|o: int, w: int| 2 <= w <= MAX_WINDOW && 0 <= o && o + w <= a.len() && #[trigger] window_permuted(cb, a, b, o, w)
}

/// Each sequence of `chain` is the one before it after a reorder step.
pub open spec fn reorder_chain(cb: &CompiledBoard, chain: Seq<Seq<(usize, Direction)>>) -> bool {
    &&& chain.len() >= 1
    &&& forall|i: int| #![trigger chain[i]] 0 <= i < chain.len() - 1 ==> reorder_step(cb, chain[i], chain[i + 1])
}

/// A reorder step from the last sequence of a chain extends the chain.
proof fn lemma_chain_extend(
    cb: &CompiledBoard,
    chain: Seq<Seq<(usize, Direction)>>,
    after: Seq<(usize, Direction)>,
    o: int,
    w: int,
)
    requires
        reorder_chain(cb, chain),
        2 <= w <= MAX_WINDOW,
        0 <= o,
        o + w <= chain.last().len(),
        window_permuted(cb, chain.last(), after, o, w),
    ensures
        reorder_chain(cb, chain.push(after)),
        chain.push(after)[0] == chain[0],
        chain.push(after).last() == after,
        chain.push(after).len() == chain.len() + 1,
{
    let c2 = chain.push(after);
    assert(reorder_step(cb, chain.last(), after)) by {
        reveal(reorder_step);
    }
    assert forall|i: int| #![trigger c2[i]] 0 <= i < c2.len() - 1 implies reorder_step(cb, c2[i], c2[i + 1]) by {
        if i < chain.len() - 1 {
            assert(c2[i] == chain[i] && c2[i + 1] == chain[i + 1]);
        } else {
            assert(c2[i] == chain.last());
        }
    }
}

/// Reorders pushes within small windows to save moves: for window sizes
/// from `MAX_WINDOW` (or the number of pushes) down to 2, and for every
/// offset, the cheapest order of the window's pushes that ends with the same
/// boxes takes the window's place when it is cheaper; rounds repeat until
/// one changes nothing (or `MAX_ROUNDS` rounds have passed). The pushes stay
/// fine, end with the same boxes, and keep their number. Returns the moves
/// saved over the whole sequence.
#[verifier::spinoff_prover]
#[verifier::rlimit(100)]
pub fn optimize_permutations(cb: &CompiledBoard, pushes: &mut Vec<(usize, Direction)>) -> (saved: u32)
    requires
        cb.wf(),
        pairs_sorted(initial_pairs(cb)),
        on_board(cb, initial_pairs(cb)),
        moves_ok(cb, start_boxes(cb), old(pushes)@),
        65535 * old(pushes)@.len() <= u32::MAX,
    ensures
        moves_ok(cb, start_boxes(cb), final(pushes)@),
        boxes_after(cb, start_boxes(cb), final(pushes)@) == boxes_after(cb, start_boxes(cb), old(pushes)@),
        final(pushes)@.len() == old(pushes)@.len(),
        old(pushes)@.len() < 2 ==> final(pushes)@ == old(pushes)@ && saved == 0,
        old(pushes)@.len() >= 2 ==> saved == saving(
            crate::improvement::cost_value(sim_cost(cb, cb.robot_cell as int, initial_pairs(cb), old(pushes)@)),
            crate::improvement::cost_value(sim_cost(cb, cb.robot_cell as int, initial_pairs(cb), final(pushes)@)),
        ),
        all_windows_optimal(cb, old(pushes)@) ==> final(pushes)@ == old(pushes)@,
        exists|chain: Seq<Seq<(usize, Direction)>>|
            #[trigger] reorder_chain(cb, chain) && chain[0] == old(pushes)@ && chain.last() == final(pushes)@ && (
            all_windows_optimal(cb, final(pushes)@) || chain.len() > MAX_ROUNDS) && (!all_windows_optimal(
                cb,
                old(pushes)@,
            ) ==> chain.len() >= 2),
{
    if pushes.len() < 2 {
        proof {
            let chain = seq![pushes@];
            assert(reorder_chain(cb, chain));
        }
        return 0;
    }
    let ghost start = start_boxes(cb);
    let ghost orig = pushes@;
    proof {
        lemma_pairs_sort_unique(initial_pairs(cb), initial_pairs(cb));
        lemma_pairs_sorted_cells(initial_pairs(cb));
    }
    let initial_moves = count_total_moves(cb, pushes);
    let mut improved = true;
    let mut rounds: usize = 0;
    let ghost mut chain: Seq<Seq<(usize, Direction)>> = seq![orig];
    while improved && rounds < MAX_ROUNDS
        invariant
            reorder_chain(cb, chain),
            chain[0] == orig,
            chain.last() == pushes@,
            improved ==> chain.len() >= rounds + 1,
            !improved ==> all_windows_optimal(cb, pushes@),
            cb.wf(),
            start == start_boxes(cb),
            start == initial_pairs(cb),
            on_board(cb, start),
            pairs_sorted(start),
            moves_ok(cb, start, pushes@),
            boxes_after(cb, start, pushes@) == boxes_after(cb, start, orig),
            pushes@.len() == orig.len(),
            rounds <= MAX_ROUNDS,
            all_windows_optimal(cb, orig) ==> pushes@ == orig && (rounds > 0 ==> !improved),
        decreases MAX_ROUNDS - rounds,
    {
        improved = false;
        rounds += 1;
        let ghost round = pushes@;
        let ghost clen = chain.len();
        let window_size = if pushes.len() < MAX_WINDOW {
            pushes.len()
        } else {
            MAX_WINDOW
        };
        let mut ws = window_size;
        while ws >= 2
            invariant
                reorder_chain(cb, chain),
                chain[0] == orig,
                chain.last() == pushes@,
                clen >= rounds,
                improved ==> chain.len() >= clen + 1,
                chain.len() >= clen,
                window_size <= MAX_WINDOW,
                window_size <= round.len(),
                window_size == MAX_WINDOW || window_size == round.len(),
                ws <= window_size,
                !improved ==> pushes@ == round && forall|o: int, w: int|
                    ws < w <= window_size && 0 <= o && o + w <= round.len() ==> #[trigger] window_optimal(cb, round, o, w),
                cb.wf(),
                start == start_boxes(cb),
                on_board(cb, start),
                pairs_sorted(start),
                moves_ok(cb, start, pushes@),
                boxes_after(cb, start, pushes@) == boxes_after(cb, start, orig),
                pushes@.len() == orig.len(),
                ws <= MAX_WINDOW,
                all_windows_optimal(cb, orig) ==> pushes@ == orig && !improved,
            decreases ws,
        {
            let mut offset: usize = 0;
            while ws <= pushes.len() - offset
                invariant
                    cb.wf(),
                    start == start_boxes(cb),
                    on_board(cb, start),
                    pairs_sorted(start),
                    moves_ok(cb, start, pushes@),
                    boxes_after(cb, start, pushes@) == boxes_after(cb, start, orig),
                    pushes@.len() == orig.len(),
                    2 <= ws <= MAX_WINDOW,
                    offset <= pushes@.len(),
                    all_windows_optimal(cb, orig) ==> pushes@ == orig && !improved,
                    reorder_chain(cb, chain),
                    chain[0] == orig,
                    chain.last() == pushes@,
                    improved ==> chain.len() >= clen + 1,
                    chain.len() >= clen,
                    window_size <= MAX_WINDOW,
                    window_size <= round.len(),
                    ws <= window_size,
                    !improved ==> pushes@ == round && forall|o: int, w: int|
                        ws < w <= window_size && 0 <= o && o + w <= round.len() ==> #[trigger] window_optimal(cb, round, o, w),
                    !improved ==> forall|o: int| 0 <= o < offset ==> #[trigger] window_optimal(cb, round, o, ws as int),
                decreases pushes@.len() - offset,
            {
                let ghost before = pushes@;
                if reorder_best(cb, pushes, offset, ws) {
                    proof {
                        if all_windows_optimal(cb, orig) {
                            assert(window_optimal(cb, orig, offset as int, ws as int));
                            lemma_optimal_not_permuted(cb, orig, pushes@, offset as int, ws as int);
                        }
                        lemma_chain_extend(cb, chain, pushes@, offset as int, ws as int);
                        chain = chain.push(pushes@);
                    }
                    improved = true;
                }
                offset += 1;
            }
            proof {
                if !improved {
                    assert forall|o: int, w: int| ws - 1 < w <= window_size && 0 <= o && o + w <= round.len() implies #[trigger] window_optimal(
                        cb,
                        round,
                        o,
                        w,
                    ) by {
                        if w == ws {
                            assert(0 <= o < offset);
                        }
                    }
                }
            }
            ws -= 1;
        }
        proof {
            if !improved {
                assert forall|o: int, w: int|
                    2 <= w <= MAX_WINDOW && 0 <= o && o + w <= pushes@.len() implies #[trigger] window_optimal(cb, pushes@, o, w) by {
                    assert(ws < w <= window_size);
                }
            }
        }
    }
    let final_moves = count_total_moves(cb, pushes);
    if initial_moves > final_moves {
        initial_moves - final_moves
    } else {
        0
    }
}

} // verus!
