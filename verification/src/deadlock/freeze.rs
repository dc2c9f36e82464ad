use vstd::prelude::*;

use crate::compiled_board::{CompiledBoard, INVALID_CELL};
use crate::position::Direction;

verus! {

broadcast use vstd::std_specs::vec::group_vec_axioms;

/// The index of the first box on cell `c` at or after index `k`.
pub open spec fn first_box_from(boxes: Seq<(u16, u8)>, c: int, k: int) -> Option<int>
    decreases boxes.len() - k,
{
    if k < 0 || k >= boxes.len() {
        None
    } else if boxes[k].0 == c {
        Some(k)
    } else {
        first_box_from(boxes, c, k + 1)
    }
}

/// Side `d` of cell `c` is blocked: a wall, or a box there (the first listed)
/// that `frozen` marks.
pub open spec fn side_blocked(nb: Seq<[u16; 4]>, boxes: Seq<(u16, u8)>, frozen: Seq<bool>, c: int, d: int) -> bool {
    let adj = nb[c]@[d] as int;
    adj == INVALID_CELL || match first_box_from(boxes, adj, 0) {
        Some(j) => frozen[j],
        None => false,
    }
}

/// Box `i` can move along neither axis when the boxes of `frozen` stay put.
pub open spec fn stuck(nb: Seq<[u16; 4]>, boxes: Seq<(u16, u8)>, frozen: Seq<bool>, i: int) -> bool {
    let c = boxes[i].0 as int;
    &&& side_blocked(nb, boxes, frozen, c, 2)
    &&& side_blocked(nb, boxes, frozen, c, 3)
    &&& side_blocked(nb, boxes, frozen, c, 0)
    &&& side_blocked(nb, boxes, frozen, c, 1)
}

/// Every box of the set `s` is stuck when the boxes of `s` stay put.
pub open spec fn self_frozen(nb: Seq<[u16; 4]>, boxes: Seq<(u16, u8)>, s: Seq<bool>) -> bool {
    &&& s.len() == boxes.len()
    &&& forall|i: int| 0 <= i < s.len() && #[trigger] s[i] ==> stuck(nb, boxes, s, i)
}

/// Some self-frozen set of boxes holds a box off every goal of its label.
pub open spec fn freeze_deadlocked(cb: &CompiledBoard, boxes: Seq<(u16, u8)>) -> bool {
    exists|s: Seq<bool>|
        #[trigger] self_frozen(cb.nbrs(), boxes, s) && exists|i: int|
            0 <= i < boxes.len() && s[i] && cb.goal_at_cell(boxes[i].0 as int) != Some(boxes[i].1)
}

spec fn within(s: Seq<bool>, t: Seq<bool>) -> bool {
    s.len() == t.len() && forall|i: int| 0 <= i < s.len() && #[trigger] s[i] ==> t[i]
}

/// A box stuck against a set is stuck against every larger set.
proof fn lemma_stuck_monotone(nb: Seq<[u16; 4]>, boxes: Seq<(u16, u8)>, s: Seq<bool>, t: Seq<bool>, i: int)
    requires
        within(s, t),
        s.len() == boxes.len(),
        stuck(nb, boxes, s, i),
        forall|c: int, k: int| #[trigger] first_box_from(boxes, c, k) is Some ==> 0 <= first_box_from(boxes, c, k)->0 < boxes.len(),
    ensures
        stuck(nb, boxes, t, i),
{
    let c = boxes[i].0 as int;
    assert forall|d: int| 0 <= d < 4 && side_blocked(nb, boxes, s, c, d) implies side_blocked(nb, boxes, t, c, d) by {
        let adj = nb[c]@[d] as int;
        if adj != INVALID_CELL {
            let j = first_box_from(boxes, adj, 0)->0;
            assert(0 <= j < boxes.len());
            assert(s[j]);
            assert(t[j]);
        }
    }
    assert(side_blocked(nb, boxes, s, c, 0) && side_blocked(nb, boxes, s, c, 1));
    assert(side_blocked(nb, boxes, s, c, 2) && side_blocked(nb, boxes, s, c, 3));
}

proof fn lemma_first_box_range(boxes: Seq<(u16, u8)>, c: int, k: int)
    ensures
        first_box_from(boxes, c, k) is Some ==> k <= first_box_from(boxes, c, k)->0 < boxes.len()
            && boxes[first_box_from(boxes, c, k)->0].0 == c,
    decreases boxes.len() - k,
{
    if 0 <= k < boxes.len() && boxes[k].0 != c {
        lemma_first_box_range(boxes, c, k + 1);
    }
}

proof fn lemma_first_box_all(boxes: Seq<(u16, u8)>)
    ensures
        forall|c: int, k: int| #[trigger] first_box_from(boxes, c, k) is Some ==> 0 <= first_box_from(boxes, c, k)->0 < boxes.len(),
{
    assert forall|c: int, k: int| #[trigger] first_box_from(boxes, c, k) is Some implies 0 <= first_box_from(boxes, c, k)->0 < boxes.len() by {
        lemma_first_box_range(boxes, c, k);
        if k < 0 {
        }
    }
}

/// How many entries of `s` are set.
spec fn set_count(s: Seq<bool>) -> nat
    decreases s.len(),
{
    if s.len() == 0 {
        0
    } else {
        set_count(s.drop_last()) + if s.last() {
            1nat
        } else {
            0nat
        }
    }
}

proof fn lemma_set_count_clear(s: Seq<bool>, i: int)
    requires
        0 <= i < s.len(),
        s[i],
    ensures
        set_count(s.update(i, false)) + 1 == set_count(s),
    decreases s.len(),
{
    if i < s.len() - 1 {
        lemma_set_count_clear(s.drop_last(), i);
        assert(s.update(i, false).drop_last() =~= s.drop_last().update(i, false));
    } else {
        assert(s.update(i, false).drop_last() =~= s.drop_last());
    }
}

/// The index of the first box on `cell`, if any.
fn first_box_index(box_cells: &[(u16, u8)], cell: u16) -> (r: Option<usize>)
    ensures
        r matches Some(j) ==> first_box_from(box_cells@, cell as int, 0) == Some(j as int),
        r is None ==> first_box_from(box_cells@, cell as int, 0) is None,
{
    let mut i: usize = 0;
    while i < box_cells.len()
        invariant
            i <= box_cells@.len(),
            first_box_from(box_cells@, cell as int, 0) == first_box_from(box_cells@, cell as int, i as int),
        decreases box_cells@.len() - i,
    {
        if box_cells[i].0 == cell {
            return Some(i);
        }
        i += 1;
    }
    None
}

/// Whether side `dir` of `cell` is a wall or a frozen box.
fn is_direction_blocked(cb: &CompiledBoard, box_cells: &[(u16, u8)], frozen: &Vec<bool>, cell: u16, dir: Direction) -> (b: bool)
    requires
        cb.wf(),
        cell < cb.cell_count,
        frozen@.len() == box_cells@.len(),
    ensures
        b == side_blocked(cb.nbrs(), box_cells@, frozen@, cell as int, crate::position::spec_index(dir)),
{
    let neighbor = cb.neighbor(cell, dir);
    if neighbor == INVALID_CELL {
        return true;
    }
    proof {
        lemma_first_box_range(box_cells@, neighbor as int, 0);
    }
    match first_box_index(box_cells, neighbor) {
        Some(idx) => frozen[idx],
        None => false,
    }
}

/// Whether both sides of `cell` along the axis of `dir_a` and `dir_b` are blocked.
fn is_axis_blocked(
    cb: &CompiledBoard,
    box_cells: &[(u16, u8)],
    frozen: &Vec<bool>,
    cell: u16,
    dir_a: Direction,
    dir_b: Direction,
) -> (b: bool)
    requires
        cb.wf(),
        cell < cb.cell_count,
        frozen@.len() == box_cells@.len(),
    ensures
        b == (side_blocked(cb.nbrs(), box_cells@, frozen@, cell as int, crate::position::spec_index(dir_a))
            && side_blocked(cb.nbrs(), box_cells@, frozen@, cell as int, crate::position::spec_index(dir_b))),
{
    is_direction_blocked(cb, box_cells, frozen, cell, dir_a) && is_direction_blocked(cb, box_cells, frozen, cell, dir_b)
}

/// Whether the box on `cell` can move along neither axis.
fn is_frozen(cb: &CompiledBoard, box_cells: &[(u16, u8)], frozen: &Vec<bool>, i: usize) -> (b: bool)
    requires
        cb.wf(),
        i < box_cells@.len(),
        box_cells@[i as int].0 < cb.cell_count,
        frozen@.len() == box_cells@.len(),
    ensures
        b == stuck(cb.nbrs(), box_cells@, frozen@, i as int),
{
    let cell = box_cells[i].0;
    let h_blocked = is_axis_blocked(cb, box_cells, frozen, cell, Direction::Left, Direction::Right);
    let v_blocked = is_axis_blocked(cb, box_cells, frozen, cell, Direction::Up, Direction::Down);
    h_blocked && v_blocked
}

/// Whether some frozen box is off every goal of its label. A box is frozen
/// when it can move along neither axis, each side blocked by a wall or a
/// frozen box; the frozen boxes are found as the largest set closed under
/// this rule (start from all boxes, release those that can move).
pub fn is_freeze_deadlock(cb: &CompiledBoard, box_cells: &[(u16, u8)]) -> (b: bool)
    requires
        cb.wf(),
        forall|i: int| 0 <= i < box_cells@.len() ==> (#[trigger] box_cells@[i]).0 < cb.cell_count,
    ensures
        b == freeze_deadlocked(cb, box_cells@),
{
    let ghost nb = cb.nbrs();
    let ghost boxes = box_cells@;
    let n = box_cells.len();
    proof {
        lemma_first_box_all(boxes);
    }
    if n == 0 {
        return false;
    }
    let mut frozen: Vec<bool> = vec![true; n];
    let mut changed = true;
    let ghost mut pass_start = frozen@;
    while changed
        invariant
            cb.wf(),
            nb == cb.nbrs(),
            boxes == box_cells@,
            n == boxes.len(),
            forall|i: int| 0 <= i < n ==> (#[trigger] boxes[i]).0 < cb.cell_count,
            forall|c: int, k: int| #[trigger] first_box_from(boxes, c, k) is Some ==> 0 <= first_box_from(boxes, c, k)->0 < boxes.len(),
            frozen@.len() == n,
            forall|s: Seq<bool>| #[trigger] self_frozen(nb, boxes, s) ==> within(s, frozen@),
            !changed ==> self_frozen(nb, boxes, frozen@),
        decreases set_count(frozen@) + if changed { 1int } else { 0int },
    {
        let ghost start_count = set_count(frozen@);
        proof {
            pass_start = frozen@;
        }
        changed = false;
        let mut i: usize = 0;
        while i < n
            invariant
                cb.wf(),
                nb == cb.nbrs(),
                boxes == box_cells@,
                n == boxes.len(),
                forall|k: int| 0 <= k < n ==> (#[trigger] boxes[k]).0 < cb.cell_count,
                forall|c: int, k: int| #[trigger] first_box_from(boxes, c, k) is Some ==> 0 <= first_box_from(boxes, c, k)->0 < boxes.len(),
                frozen@.len() == n,
                i <= n,
                forall|s: Seq<bool>| #[trigger] self_frozen(nb, boxes, s) ==> within(s, frozen@),
                !changed ==> frozen@ == pass_start,
                !changed ==> forall|k: int| 0 <= k < i && #[trigger] frozen@[k] ==> stuck(nb, boxes, frozen@, k),
                changed ==> set_count(frozen@) < start_count,
                !changed ==> set_count(frozen@) == start_count,
            decreases n - i,
        {
            if frozen[i] {
                if !is_frozen(cb, box_cells, &frozen, i) {
                    proof {
                        assert forall|s: Seq<bool>| #[trigger] self_frozen(nb, boxes, s) implies within(s, frozen@.update(i as int, false)) by {
                            assert(within(s, frozen@));
                            if s[i as int] {
                                lemma_stuck_monotone(nb, boxes, s, frozen@, i as int);
                            }
                        }
                        lemma_set_count_clear(frozen@, i as int);
                    }
                    frozen.set(i, false);
                    changed = true;
                }
            }
            i += 1;
        }
    }
    let mut i: usize = 0;
    while i < n
        invariant
            cb.wf(),
            nb == cb.nbrs(),
            boxes == box_cells@,
            n == boxes.len(),
            forall|k: int| 0 <= k < n ==> (#[trigger] boxes[k]).0 < cb.cell_count,
            frozen@.len() == n,
            self_frozen(nb, boxes, frozen@),
            forall|s: Seq<bool>| #[trigger] self_frozen(nb, boxes, s) ==> within(s, frozen@),
            i <= n,
            forall|k: int| 0 <= k < i && #[trigger] frozen@[k] ==> cb.goal_at_cell(boxes[k].0 as int) == Some(boxes[k].1),
        decreases n - i,
    {
        if frozen[i] {
            let (cell, label) = box_cells[i];
            if !cb.goal_matches(cell, label) {
                proof {
                    assert(self_frozen(nb, boxes, frozen@));
                }
                return true;
            }
        }
        i += 1;
    }
    proof {
        assert forall|s: Seq<bool>| #[trigger] self_frozen(nb, boxes, s) implies !exists|k: int|
            0 <= k < boxes.len() && s[k] && cb.goal_at_cell(boxes[k].0 as int) != Some(boxes[k].1) by {
            assert(within(s, frozen@));
        }
    }
    false
}

} // verus!
