use vstd::prelude::*;

use rustc_hash::FxHashSet;
use std::collections::VecDeque;

use crate::compiled_board::{direction_at, CompiledBoard, INVALID_CELL};
use crate::deadlock::DeadlockChecker;
use crate::dense_state::{copy_cells, lemma_pairs_sorted_cells};
use crate::graph::{lemma_reachable_trans, reachable};
use crate::improvement::{
    ahead, boxes_after, keeper_after, lemma_push_boxes, lemma_push_on_board, legal_sequence, moved_pairs, on_board,
    push_boxes,
};
use crate::position::{spec_opposite, Direction};
use crate::reachability::{canonical_keeper, contains_cell, keeper_reachable, walks};
use crate::sorting::pairs_sorted;

verus! {

broadcast use vstd::std_specs::vec::group_vec_axioms;

/// A state of the search: the keeper's region, the boxes, and the pushes
/// that led there.
struct PushNode {
    keeper_zone: u16,
    box_cells: Vec<(u16, u8)>,
    path: Vec<(usize, Direction)>,
}

/// The states already seen: keeper region and boxes.
pub(crate) type SeenSet = FxHashSet<(u16, Vec<(u16, u8)>)>;

/// The pairs of keeper region and box list that a seen-set holds.
pub uninterp spec fn seen_pairs(set: SeenSet) -> Set<(u16, Seq<(u16, u8)>)>;

/// An empty seen-set (`HashSet::default` of std with the hasher of
/// rustc-hash). Claimed: it holds nothing.
#[verifier::external_body]
pub(crate) fn new_seen_set() -> (set: SeenSet)
    ensures
        seen_pairs(set) == Set::<(u16, Seq<(u16, u8)>)>::empty(),
{
    FxHashSet::default()
}

/// Adds the state `(zone, boxes)` to a seen-set (`HashSet::insert`).
/// Claimed: the result tells whether the state was new, and afterwards the
/// set holds its former states and this one. Two states are the same when
/// their regions and their box lists agree entry by entry, which is what the
/// derived equality of the tuple and of `Vec` compares; the Fx hasher is
/// deterministic.
#[verifier::external_body]
pub(crate) fn mark_seen(set: &mut SeenSet, zone: u16, boxes: &Vec<(u16, u8)>) -> (fresh: bool)
    ensures
        fresh == !seen_pairs(*old(set)).contains((zone, boxes@)),
        seen_pairs(*final(set)) == seen_pairs(*old(set)).insert((zone, boxes@)),
{
    set.insert((zone, boxes.clone()))
}

/// A copy of a push sequence.
pub fn copy_pushes(pushes: &[(usize, Direction)]) -> (out: Vec<(usize, Direction)>)
    ensures
        out@ == pushes@,
{
    let mut out: Vec<(usize, Direction)> = Vec::new();
    let mut i: usize = 0;
    while i < pushes.len()
        invariant
            i <= pushes@.len(),
            out@ == pushes@.take(i as int),
        decreases pushes@.len() - i,
    {
        out.push(pushes[i]);
        proof {
            assert(pushes@.take(i + 1) =~= pushes@.take(i as int).push(pushes@[i as int]));
        }
        i += 1;
    }
    proof {
        assert(pushes@.take(i as int) =~= pushes@);
    }
    out
}

/// Whether two box lists are equal.
pub fn same_pairs(a: &[(u16, u8)], b: &[(u16, u8)]) -> (r: bool)
    ensures
        r == (a@ == b@),
{
    if a.len() != b.len() {
        return false;
    }
    let mut i: usize = 0;
    while i < a.len()
        invariant
            a@.len() == b@.len(),
            i <= a@.len(),
            forall|j: int| 0 <= j < i ==> a@[j] == b@[j],
        decreases a@.len() - i,
    {
        if a[i].0 != b[i].0 || a[i].1 != b[i].1 {
            return false;
        }
        i += 1;
    }
    proof {
        assert(a@ =~= b@);
    }
    true
}

/// Whether two push sequences are equal.
pub fn same_pushes(a: &[(usize, Direction)], b: &[(usize, Direction)]) -> (r: bool)
    ensures
        r == (a@ == b@),
{
    if a.len() != b.len() {
        return false;
    }
    let mut i: usize = 0;
    while i < a.len()
        invariant
            a@.len() == b@.len(),
            i <= a@.len(),
            forall|j: int| 0 <= j < i ==> a@[j] == b@[j],
        decreases a@.len() - i,
    {
        if a[i].0 != b[i].0 || a[i].1 != b[i].1 {
            return false;
        }
        i += 1;
    }
    proof {
        assert(a@ =~= b@);
    }
    true
}

/// The node was reached from `boxes0`, with the keeper in the region of
/// `zone0`, by a legal sequence of at most `max_pushes` pushes.
spec fn node_ok(cb: &CompiledBoard, zone0: int, boxes0: Seq<(u16, u8)>, max_pushes: int, n: PushNode) -> bool {
    let path = n.path@;
    let boxes = n.box_cells@;
    let keeper = keeper_after(cb, zone0, boxes0, path);
    &&& pairs_sorted(boxes)
    &&& on_board(cb, boxes)
    &&& boxes.len() == boxes0.len()
    &&& path.len() <= max_pushes
    &&& legal_sequence(cb, zone0, boxes0, path)
    &&& boxes_after(cb, boxes0, path) == boxes
    &&& (n.keeper_zone < cb.cell_count || n.keeper_zone == INVALID_CELL)
    &&& ((path.len() == 0 && n.keeper_zone == zone0) || (keeper != INVALID_CELL && n.keeper_zone != INVALID_CELL
        && reachable(walks(cb.nbrs(), boxes), keeper, n.keeper_zone as int)))
}

/// Breadth-first search over legal pushes from `boxes`, the keeper in the
/// region of `zone`, for at most `max_pushes` pushes after which the boxes
/// are `target`. States already seen, and states the quick deadlock checks
/// reject, are not entered. Where `avoid` is given, a sequence equal to it
/// or longer is passed over and the search goes on. `None` once more than
/// `max_expanded` states have been expanded, or when the search runs out.
pub fn search_pushes(
    cb: &CompiledBoard,
    deadlocks: &DeadlockChecker,
    zone: u16,
    boxes: &Vec<(u16, u8)>,
    target: &[(u16, u8)],
    max_pushes: usize,
    max_expanded: usize,
    avoid: Option<&[(usize, Direction)]>,
) -> (r: Option<Vec<(usize, Direction)>>)
    requires
        cb.wf(),
        deadlocks.wf(cb),
        pairs_sorted(boxes@),
        on_board(cb, boxes@),
        zone < cb.cell_count || zone == INVALID_CELL,
        max_expanded < usize::MAX,
    ensures
        r matches Some(p) ==> {
            &&& p@.len() <= max_pushes
            &&& legal_sequence(cb, zone as int, boxes@, p@)
            &&& boxes_after(cb, boxes@, p@) == target@
            &&& avoid matches Some(a) ==> p@ != a@ && p@.len() <= a@.len()
        },
        boxes@ == target@ && (avoid matches Some(a) ==> a@.len() > 0) ==> (r matches Some(p) && p@.len() == 0),
{
    proof {
        cb.lemma_wf();
    }
    let ghost zone0 = zone as int;
    let ghost boxes0 = boxes@;
    let mut queue: VecDeque<PushNode> = VecDeque::new();
    let mut seen = new_seen_set();
    let _ = mark_seen(&mut seen, zone, boxes);
    let start = PushNode { keeper_zone: zone, box_cells: copy_cells(boxes), path: Vec::new() };
    queue.push_back(start);
    proof {
        assert(queue@[0].path@ =~= Seq::<(usize, Direction)>::empty());
    }
    let mut expanded: usize = 0;
    let ghost at_once = boxes@ == target@ && (avoid matches Some(a) ==> a@.len() > 0);
    let ghost mut first = true;
    loop
        invariant
            cb.wf(),
            deadlocks.wf(cb),
            crate::compiled_board::nbrs_ok(cb.nbrs(), cb.cell_count as int),
            zone0 == zone as int,
            boxes0 == boxes@,
            at_once == (boxes@ == target@ && (avoid matches Some(a) ==> a@.len() > 0)),
            first ==> queue@.len() == 1 && queue@[0].box_cells@ == boxes0 && queue@[0].path@.len() == 0,
            !first ==> !at_once,
            expanded <= max_expanded,
            max_expanded < usize::MAX,
            forall|i: int| 0 <= i < queue@.len() ==> node_ok(cb, zone0, boxes0, max_pushes as int, #[trigger] queue@[i]),
        decreases max_expanded - expanded, queue@.len(),
    {
        let ghost q0 = queue@;
        let popped = queue.pop_front();
        let node = match popped {
            Some(n) => n,
            None => {
                return None;
            },
        };
        let ghost was_first = first;
        proof {
            assert(node == q0[0]);
            assert forall|i: int| 0 <= i < queue@.len() implies node_ok(cb, zone0, boxes0, max_pushes as int, #[trigger] queue@[i]) by {
                assert(queue@[i] == q0[i + 1]);
            }
            first = false;
        }
        if same_pairs(&node.box_cells, target) {
            match avoid {
                None => {
                    return Some(node.path);
                },
                Some(a) => {
                    if node.path.len() <= a.len() && !same_pushes(&node.path, a) {
                        return Some(node.path);
                    }
                    continue;
                },
            }
        }
        if node.path.len() >= max_pushes {
            continue;
        }
        expanded += 1;
        if expanded > max_expanded {
            return None;
        }
        proof {
            lemma_pairs_sorted_cells(node.box_cells@);
        }
        let reach = keeper_reachable(cb, node.keeper_zone, &node.box_cells);
        let ghost path = node.path@;
        let ghost cur = node.box_cells@;
        let ghost keeper = keeper_after(cb, zone0, boxes0, path);
        let mut bi: usize = 0;
        while bi < node.box_cells.len()
            invariant
                cb.wf(),
                deadlocks.wf(cb),
                crate::compiled_board::nbrs_ok(cb.nbrs(), cb.cell_count as int),
                zone0 == zone as int,
                boxes0 == boxes@,
                node_ok(cb, zone0, boxes0, max_pushes as int, node),
                path == node.path@,
                cur == node.box_cells@,
                keeper == keeper_after(cb, zone0, boxes0, path),
                path.len() < max_pushes,
                reach@.len() == cb.cell_count,
                forall|c: int|
                    0 <= c < cb.cell_count ==> #[trigger] reach@[c] == (node.keeper_zone != INVALID_CELL && reachable(
                        walks(cb.nbrs(), cur),
                        node.keeper_zone as int,
                        c,
                    )),
                crate::reachability::sorted_cells(cur),
                bi <= cur.len(),
                forall|i: int| 0 <= i < queue@.len() ==> node_ok(cb, zone0, boxes0, max_pushes as int, #[trigger] queue@[i]),
            decreases cur.len() - bi,
        {
            let box_cell = node.box_cells[bi].0;
            let label = node.box_cells[bi].1;
            let mut k: usize = 0;
            while k < 4
                invariant
                    cb.wf(),
                    deadlocks.wf(cb),
                    crate::compiled_board::nbrs_ok(cb.nbrs(), cb.cell_count as int),
                    zone0 == zone as int,
                    boxes0 == boxes@,
                    node_ok(cb, zone0, boxes0, max_pushes as int, node),
                    path == node.path@,
                    cur == node.box_cells@,
                    keeper == keeper_after(cb, zone0, boxes0, path),
                    path.len() < max_pushes,
                    reach@.len() == cb.cell_count,
                    forall|c: int|
                        0 <= c < cb.cell_count ==> #[trigger] reach@[c] == (node.keeper_zone != INVALID_CELL && reachable(
                            walks(cb.nbrs(), cur),
                            node.keeper_zone as int,
                            c,
                        )),
                    crate::reachability::sorted_cells(cur),
                    bi < cur.len(),
                    box_cell == cur[bi as int].0,
                    label == cur[bi as int].1,
                    box_cell < cb.cell_count,
                    k <= 4,
                    forall|i: int| 0 <= i < queue@.len() ==> node_ok(cb, zone0, boxes0, max_pushes as int, #[trigger] queue@[i]),
                decreases 4 - k,
            {
                let dir = direction_at(k);
                k += 1;
                let target_cell = cb.neighbor(box_cell, dir);
                if target_cell == INVALID_CELL {
                    continue;
                }
                if contains_cell(&node.box_cells, target_cell) {
                    continue;
                }
                let push_from = cb.neighbor(box_cell, dir.opposite());
                if push_from == INVALID_CELL {
                    continue;
                }
                if contains_cell(&node.box_cells, push_from) {
                    continue;
                }
                if !reach[push_from as usize] {
                    continue;
                }
                let new_boxes = moved_pairs(&node.box_cells, bi, target_cell);
                proof {
                    lemma_pairs_sorted_cells(new_boxes@);
                    lemma_push_on_board(cb, cur, bi as int, dir);
                }
                let new_keeper = canonical_keeper(cb, box_cell, &new_boxes);
                if !mark_seen(&mut seen, new_keeper, &new_boxes) {
                    continue;
                }
                if deadlocks.is_deadlocked_quick(cb, &new_boxes) {
                    continue;
                }
                let mut new_path = copy_pushes(&node.path);
                new_path.push((bi, dir));
                let next = PushNode { keeper_zone: new_keeper, box_cells: new_boxes, path: new_path };
                proof {
                    let p2 = next.path@;
                    assert(p2.drop_last() =~= path);
                    assert(p2.last() == (bi, dir));
                    if !(path.len() == 0 && node.keeper_zone == zone0) {
                        lemma_reachable_trans(walks(cb.nbrs(), cur), keeper, node.keeper_zone as int, push_from as int);
                    }
                    assert(crate::improvement::legal_move(cb, keeper, cur, (bi, dir)));
                    lemma_push_boxes(cb, cur, bi as int, dir);
                    assert(node_ok(cb, zone0, boxes0, max_pushes as int, next));
                }
                let ghost qb = queue@;
                queue.push_back(next);
                proof {
                    assert forall|i: int| 0 <= i < queue@.len() implies node_ok(cb, zone0, boxes0, max_pushes as int, #[trigger] queue@[i]) by {
                        if i < qb.len() {
                            assert(queue@[i] == qb[i]);
                        }
                    }
                }
            }
            bi += 1;
        }
    }
}

} // verus!
