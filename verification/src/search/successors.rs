use vstd::prelude::*;

use crate::compiled_board::{direction_at, dir_of, CompiledBoard, INVALID_CELL};
use crate::dense_state::{copy_cells, lemma_pairs_sorted_cells, state_ok, DenseState};
use crate::graph::reachable;
use crate::position::{spec_index, spec_opposite, Direction};
use crate::reachability::{canonical_keeper, contains_cell, has_cell, keeper_reachable, walks};
use crate::sorting::{lemma_pairs_sort_unique, pair_order, pairs_sorted, sort_pairs};
use vstd::seq_lib::to_multiset_contains;

verus! {

broadcast use vstd::std_specs::vec::group_vec_axioms;

/// A push successor: the state after pushing box `box_index` in `direction`.
#[derive(Clone, Debug)]
pub struct PushSuccessor {
    pub state: DenseState,
    pub box_index: usize,
    pub direction: Direction,
}

/// The index of the direction opposite to the direction of index `d`.
pub open spec fn opposite_index(d: int) -> int {
    spec_index(spec_opposite(dir_of(d)))
}

/// Pushing box `bi` in the direction of index `d` is legal: the cell ahead
/// is a cell without a box, and the cell behind, where the keeper must stand,
/// is a cell without a box that the keeper can reach.
pub open spec fn legal_push(cb: &CompiledBoard, s: DenseState, bi: int, d: int) -> bool {
    let boxes = s.box_cells@;
    let cell = boxes[bi].0 as int;
    let target = cb.nbrs()[cell]@[d] as int;
    let from = cb.nbrs()[cell]@[opposite_index(d)] as int;
    &&& target != INVALID_CELL
    &&& !has_cell(boxes, target)
    &&& from != INVALID_CELL
    &&& !has_cell(boxes, from)
    &&& s.keeper_zone != INVALID_CELL
    &&& reachable(walks(cb.nbrs(), boxes), s.keeper_zone as int, from)
}

/// The legal pushes among the first `k` candidates, in order; candidate `j`
/// pushes box `j / 4` in the direction of index `j % 4`.
pub open spec fn legal_pushes(cb: &CompiledBoard, s: DenseState, k: int) -> Seq<(int, int)>
    decreases k,
{
    if k <= 0 {
        seq![]
    } else {
        let prev = legal_pushes(cb, s, k - 1);
        let c = ((k - 1) / 4, (k - 1) % 4);
        if legal_push(cb, s, c.0, c.1) {
            prev.push(c)
        } else {
            prev
        }
    }
}

/// `t` is the state after pushing box `bi` of `s` in the direction of index
/// `d`: the box moved ahead and the boxes sorted again, the keeper on the
/// box's former cell with the least cell of its region as zone, one more move
/// and one more push.
pub open spec fn pushed(cb: &CompiledBoard, s: DenseState, bi: int, d: int, t: DenseState) -> bool {
    let cell = s.box_cells@[bi].0;
    let target = cb.nbrs()[cell as int]@[d];
    let moved = s.box_cells@.update(bi, (target, s.box_cells@[bi].1));
    &&& t.box_cells@.to_multiset() == moved.to_multiset()
    &&& t.box_cells@.len() == moved.len()
    &&& pairs_sorted(t.box_cells@)
    &&& t.keeper_cell == cell
    &&& t.keeper_zone < cb.cell_count
    &&& reachable(walks(cb.nbrs(), t.box_cells@), cell as int, t.keeper_zone as int)
    &&& forall|x: int| 0 <= x < t.keeper_zone ==> !reachable(walks(cb.nbrs(), t.box_cells@), cell as int, x)
    &&& t.moves == s.moves + 1
    &&& t.pushes == s.pushes + 1
}

/// The boxes of `s` after pushing box `bi` in the direction of index `d`,
/// sorted again.
pub open spec fn moved_boxes(cb: &CompiledBoard, s: DenseState, bi: int, d: int) -> Seq<(u16, u8)> {
    let cell = s.box_cells@[bi].0;
    let target = cb.nbrs()[cell as int]@[d];
    s.box_cells@.update(bi, (target, s.box_cells@[bi].1)).sort_by(pair_order())
}

/// A legal push leads to a state consistent with the board, with as many
/// boxes, namely the moved boxes sorted again.
pub proof fn lemma_pushed(cb: &CompiledBoard, s: DenseState, bi: int, d: int, t: DenseState)
    requires
        cb.wf(),
        state_ok(cb, s),
        0 <= bi < s.box_cells@.len(),
        0 <= d < 4,
        legal_push(cb, s, bi, d),
        pushed(cb, s, bi, d, t),
    ensures
        t.box_cells@ == moved_boxes(cb, s, bi, d),
        t.box_cells@.len() == s.box_cells@.len(),
        state_ok(cb, t),
{
    cb.lemma_wf();
    let cell = s.box_cells@[bi].0;
    let target = cb.nbrs()[cell as int]@[d];
    let moved = s.box_cells@.update(bi, (target, s.box_cells@[bi].1));
    lemma_pairs_sort_unique(t.box_cells@, moved);
    assert forall|i: int| 0 <= i < t.box_cells@.len() implies (#[trigger] t.box_cells@[i]).0 < cb.cell_count by {
        let x = t.box_cells@[i];
        to_multiset_contains(t.box_cells@, x);
        assert(t.box_cells@.contains(x));
        to_multiset_contains(moved, x);
        let j = choose|j: int| 0 <= j < moved.len() && moved[j] == x;
        if j != bi {
            assert(moved[j] == s.box_cells@[j]);
        }
    }
}

/// Two states that share their boxes and keeper zone have the same legal
/// pushes.
pub proof fn lemma_legal_pushes_congruent(cb: &CompiledBoard, s1: DenseState, s2: DenseState, k: int)
    requires
        s1.box_cells@ == s2.box_cells@,
        s1.keeper_zone == s2.keeper_zone,
    ensures
        legal_pushes(cb, s1, k) == legal_pushes(cb, s2, k),
    decreases k,
{
    if k > 0 {
        lemma_legal_pushes_congruent(cb, s1, s2, k - 1);
    }
}

/// The states a push leads to agree in every field.
pub proof fn lemma_pushed_unique(cb: &CompiledBoard, s: DenseState, bi: int, d: int, t1: DenseState, t2: DenseState)
    requires
        cb.wf(),
        state_ok(cb, s),
        0 <= bi < s.box_cells@.len(),
        0 <= d < 4,
        legal_push(cb, s, bi, d),
        pushed(cb, s, bi, d, t1),
        pushed(cb, s, bi, d, t2),
    ensures
        t1.box_cells@ == t2.box_cells@,
        t1.keeper_cell == t2.keeper_cell,
        t1.keeper_zone == t2.keeper_zone,
        t1.moves == t2.moves,
        t1.pushes == t2.pushes,
{
    lemma_pushed(cb, s, bi, d, t1);
    lemma_pushed(cb, s, bi, d, t2);
    let cell = s.box_cells@[bi].0 as int;
    let w = walks(cb.nbrs(), t1.box_cells@);
    if t1.keeper_zone < t2.keeper_zone {
        assert(reachable(w, cell, t1.keeper_zone as int));
    } else if t2.keeper_zone < t1.keeper_zone {
        assert(reachable(w, cell, t2.keeper_zone as int));
    }
}

/// The number of legal pushes among the first `k` candidates is at most `k`.
pub proof fn lemma_legal_pushes_len(cb: &CompiledBoard, s: DenseState, k: int)
    requires
        k >= 0,
    ensures
        legal_pushes(cb, s, k).len() <= k,
    decreases k,
{
    if k > 0 {
        lemma_legal_pushes_len(cb, s, k - 1);
    }
}

/// All legal pushes from `state`, in order of box and then of direction (up,
/// down, left, right), each with the state it leads to.
pub fn generate_successors(cb: &CompiledBoard, state: &DenseState) -> (succs: Vec<PushSuccessor>)
    requires
        cb.wf(),
        state_ok(cb, *state),
        state.moves < u32::MAX,
        state.pushes < u32::MAX,
    ensures
        succs@.len() == legal_pushes(cb, *state, 4 * state.box_cells@.len() as int).len(),
        forall|i: int|
            0 <= i < succs@.len() ==> {
                let c = legal_pushes(cb, *state, 4 * state.box_cells@.len() as int)[i];
                &&& (#[trigger] succs@[i]).box_index == c.0
                &&& spec_index(succs@[i].direction) == c.1
                &&& pushed(cb, *state, c.0, c.1, succs@[i].state)
            },
{
    proof {
        cb.lemma_wf();
        lemma_pairs_sorted_cells(state.box_cells@);
    }
    let ghost s = *state;
    let ghost nb = cb.nbrs();
    let ghost boxes = state.box_cells@;
    let mut successors: Vec<PushSuccessor> = Vec::new();
    let reach = keeper_reachable(cb, state.keeper_zone, state.box_cells.as_slice());
    let mut bi: usize = 0;
    while bi < state.box_cells.len()
        invariant
            cb.wf(),
            s == *state,
            nb == cb.nbrs(),
            boxes == state.box_cells@,
            state_ok(cb, s),
            crate::reachability::sorted_cells(boxes),
            crate::compiled_board::nbrs_ok(nb, cb.cell_count as int),
            s.moves < u32::MAX,
            s.pushes < u32::MAX,
            reach@.len() == cb.cell_count,
            forall|c: int|
                0 <= c < cb.cell_count ==> #[trigger] reach@[c] == (s.keeper_zone != INVALID_CELL && reachable(
                    walks(nb, boxes),
                    s.keeper_zone as int,
                    c,
                )),
            bi <= boxes.len(),
            successors@.len() == legal_pushes(cb, s, 4 * bi).len(),
            forall|i: int|
                0 <= i < successors@.len() ==> {
                    let c = legal_pushes(cb, s, 4 * bi)[i];
                    &&& (#[trigger] successors@[i]).box_index == c.0
                    &&& spec_index(successors@[i].direction) == c.1
                    &&& pushed(cb, s, c.0, c.1, successors@[i].state)
                },
        decreases boxes.len() - bi,
    {
        let (box_cell, label) = state.box_cells[bi];
        let mut k: usize = 0;
        while k < 4
            invariant
                cb.wf(),
                s == *state,
                nb == cb.nbrs(),
                boxes == state.box_cells@,
                state_ok(cb, s),
                crate::reachability::sorted_cells(boxes),
                crate::compiled_board::nbrs_ok(nb, cb.cell_count as int),
                s.moves < u32::MAX,
                s.pushes < u32::MAX,
                reach@.len() == cb.cell_count,
                forall|c: int|
                    0 <= c < cb.cell_count ==> #[trigger] reach@[c] == (s.keeper_zone != INVALID_CELL && reachable(
                        walks(nb, boxes),
                        s.keeper_zone as int,
                        c,
                    )),
                bi < boxes.len(),
                box_cell == boxes[bi as int].0,
                label == boxes[bi as int].1,
                k <= 4,
                successors@.len() == legal_pushes(cb, s, 4 * bi + k).len(),
                forall|i: int|
                    0 <= i < successors@.len() ==> {
                        let c = legal_pushes(cb, s, 4 * bi + k)[i];
                        &&& (#[trigger] successors@[i]).box_index == c.0
                        &&& spec_index(successors@[i].direction) == c.1
                        &&& pushed(cb, s, c.0, c.1, successors@[i].state)
                    },
            decreases 4 - k,
        {
            let dir = direction_at(k);
            let target = cb.neighbor(box_cell, dir);
            let back = dir.opposite();
            let push_from = cb.neighbor(box_cell, back);
            let ghost j = 4 * bi + k;
            proof {
                assert(j / 4 == bi && j % 4 == k);
                assert(spec_index(back) == opposite_index(k as int));
            }
            let legal = target != INVALID_CELL && !contains_cell(state.box_cells.as_slice(), target) && push_from
                != INVALID_CELL && !contains_cell(state.box_cells.as_slice(), push_from) && reach[push_from as usize];
            proof {
                assert(legal == legal_push(cb, s, bi as int, k as int));
            }
            let ghost before = successors@;
            if legal {
                let mut new_box_cells = copy_cells(&state.box_cells);
                new_box_cells.set(bi, (target, label));
                let ghost moved = new_box_cells@;
                sort_pairs(&mut new_box_cells);
                proof {
                    lemma_pairs_sorted_cells(new_box_cells@);
                }
                let new_keeper_zone = canonical_keeper(cb, box_cell, new_box_cells.as_slice());
                let next = DenseState {
                    keeper_cell: box_cell,
                    keeper_zone: new_keeper_zone,
                    box_cells: new_box_cells,
                    moves: state.moves + 1,
                    pushes: state.pushes + 1,
                };
                proof {
                    assert(moved == boxes.update(bi as int, (target, label)));
                    assert(pushed(cb, s, bi as int, k as int, next));
                }
                successors.push(PushSuccessor { state: next, box_index: bi, direction: dir });
            }
            proof {
                assert(legal_pushes(cb, s, j + 1) == if legal { legal_pushes(cb, s, j).push((bi as int, k as int)) } else { legal_pushes(cb, s, j) });
                assert forall|i: int| 0 <= i < successors@.len() implies {
                    let c = legal_pushes(cb, s, 4 * bi + k + 1)[i];
                    &&& (#[trigger] successors@[i]).box_index == c.0
                    &&& spec_index(successors@[i].direction) == c.1
                    &&& pushed(cb, s, c.0, c.1, successors@[i].state)
                } by {
                    if i < before.len() {
                        assert(successors@[i] == before[i]);
                    }
                }
            }
            k += 1;
        }
        bi += 1;
    }
    successors
}

} // verus!
