use vstd::prelude::*;

use crate::compiled_board::{direction_at, CompiledBoard, INVALID_CELL};
use crate::deadlock::DeadlockChecker;
use crate::dense_state::{copy_cells, lemma_pairs_sorted_cells};
use crate::graph::{lemma_reachable_trans, reachable};
use crate::improvement::box_rescheduling::{replay_to_offset, PartialState};
use crate::improvement::push_bfs::{copy_pushes, mark_seen, new_seen_set, same_pairs};
use crate::improvement::{
    ahead, boxes_after, keeper_after, lemma_legal_from_zone, lemma_legal_moves_ok, lemma_legal_needs_keeper,
    lemma_moves_in_range, lemma_moves_on_board, lemma_prefix_ok, lemma_push_boxes, lemma_push_on_board,
    lemma_moves_indices, lemma_splice, legal_sequence, moved_pairs, moves_ok, on_board, push_boxes,
    sorted_start_boxes, splice_pushes, start_boxes,
};
use crate::planning::rooms::RoomMap;
use crate::position::{spec_opposite, Direction};
use crate::reachability::{canonical_keeper, contains_cell, keeper_reachable, sorted_cells, walks};
use crate::sorting::pairs_sorted;

verus! {

broadcast use vstd::std_specs::vec::group_vec_axioms;

/// The most states one search of a segment expands.
pub const MAX_EXPANDED: usize = 50000;

/// The most pushes of a segment that is solved again.
pub const MAX_SEGMENT_PUSHES: u32 = 20;

/// A state of the search: the keeper's region, the boxes, and the pushes
/// that led there.
struct ANode {
    keeper_zone: u16,
    box_cells: Vec<(u16, u8)>,
    path: Vec<(usize, Direction)>,
}

/// The number of places among the first `k` where the two box lists have
/// boxes on different cells.
pub open spec fn mismatches(current: Seq<(u16, u8)>, target: Seq<(u16, u8)>, k: int) -> nat
    decreases k,
{
    if k <= 0 {
        0
    } else {
        mismatches(current, target, k - 1) + if current[k - 1].0 != target[k - 1].0 {
            1nat
        } else {
            0nat
        }
    }
}

/// The shorter length of two lists.
pub open spec fn shorter_len(a: int, b: int) -> int {
    if a < b {
        a
    } else {
        b
    }
}

/// The number of places, along both lists, where the boxes stand on
/// different cells: a lower bound on the pushes left when every push moves
/// one box.
pub fn heuristic_to_target(_cb: &CompiledBoard, current: &[(u16, u8)], target: &[(u16, u8)]) -> (h: u32)
    ensures
        h == mismatches(current@, target@, shorter_len(current@.len() as int, target@.len() as int)) as u32,
{
    let n = if current.len() < target.len() {
        current.len()
    } else {
        target.len()
    };
    let mut count: usize = 0;
    let mut i: usize = 0;
    while i < n
        invariant
            n == shorter_len(current@.len() as int, target@.len() as int),
            i <= n,
            count == mismatches(current@, target@, i as int),
            count <= i,
        decreases n - i,
    {
        if current[i].0 != target[i].0 {
            count += 1;
        }
        i += 1;
    }
    #[verifier::truncate]
    (count as u32)
}

/// The node was reached from `boxes0`, with the keeper in the region of
/// `zone0`, by a legal sequence of pushes.
spec fn anode_ok(cb: &CompiledBoard, zone0: int, boxes0: Seq<(u16, u8)>, n: ANode) -> bool {
    let path = n.path@;
    let boxes = n.box_cells@;
    let keeper = keeper_after(cb, zone0, boxes0, path);
    &&& pairs_sorted(boxes)
    &&& on_board(cb, boxes)
    &&& boxes.len() == boxes0.len()
    &&& legal_sequence(cb, zone0, boxes0, path)
    &&& boxes_after(cb, boxes0, path) == boxes
    &&& (n.keeper_zone < cb.cell_count || n.keeper_zone == INVALID_CELL)
    &&& ((path.len() == 0 && n.keeper_zone == zone0) || (keeper != INVALID_CELL && n.keeper_zone != INVALID_CELL
        && reachable(walks(cb.nbrs(), boxes), keeper, n.keeper_zone as int)))
}

/// Entry `a` of the open list comes no later than entry `b`: by estimate,
/// then by node.
pub open spec fn entry_le(a: (u32, usize), b: (u32, usize)) -> bool {
    a.0 < b.0 || (a.0 == b.0 && a.1 <= b.1)
}

/// Takes the least entry, by estimate and then by node, off the open list.
fn pop_least(open: &mut Vec<(u32, usize)>) -> (r: Option<(u32, usize)>)
    ensures
        old(open)@.len() == 0 <==> r is None,
        r matches Some(e) ==> exists|i: int|
            0 <= i < old(open)@.len() && old(open)@[i] == e && final(open)@ == old(open)@.remove(i) && forall|j: int|
                0 <= j < old(open)@.len() ==> entry_le(e, #[trigger] old(open)@[j]),
        r is None ==> final(open)@ == old(open)@,
{
    if open.len() == 0 {
        return None;
    }
    let mut best: usize = 0;
    let mut j: usize = 1;
    while j < open.len()
        invariant
            open@ == old(open)@,
            0 < open@.len(),
            best < open@.len(),
            1 <= j <= open@.len(),
            forall|t: int| 0 <= t < j ==> entry_le(open@[best as int], #[trigger] open@[t]),
        decreases open@.len() - j,
    {
        let e = open[j];
        let b = open[best];
        if e.0 < b.0 || (e.0 == b.0 && e.1 < b.1) {
            best = j;
        }
        j += 1;
    }
    let e = open.remove(best);
    Some(e)
}

/// A sequence of fewer than `max_pushes` legal pushes from `pre` after
/// which the boxes are `target_boxes`: the first that a best-first (A*)
/// search reaches, ordered by pushes so far plus the places where the boxes
/// differ from the target, ties going to the earlier state. `None` when the
/// search finds none within its limit of expansions. Where the boxes already
/// are `target_boxes` and `max_pushes` is not 0, that is the empty sequence.
pub fn astar_segment(
    cb: &CompiledBoard,
    deadlocks: &DeadlockChecker,
    pre: &PartialState,
    target_boxes: &[(u16, u8)],
    max_pushes: u32,
) -> (r: Option<Vec<(usize, Direction)>>)
    requires
        cb.wf(),
        deadlocks.wf(cb),
        pre.keeper < cb.cell_count || pre.keeper == INVALID_CELL,
        pairs_sorted(pre.box_cells@),
        on_board(cb, pre.box_cells@),
        pre.box_cells@.len() + max_pushes <= u32::MAX,
    ensures
        r matches Some(p) ==> {
            &&& p@.len() < max_pushes
            &&& legal_sequence(cb, pre.keeper as int, pre.box_cells@, p@)
            &&& boxes_after(cb, pre.box_cells@, p@) == target_boxes@
        },
        pre.box_cells@ == target_boxes@ && max_pushes > 0 ==> (r matches Some(p) && p@.len() == 0),
{
    proof {
        cb.lemma_wf();
        lemma_pairs_sorted_cells(pre.box_cells@);
    }
    let keeper_zone = canonical_keeper(cb, pre.keeper, &pre.box_cells);
    let ghost zone0 = keeper_zone as int;
    let ghost boxes0 = pre.box_cells@;
    let h = heuristic_to_target(cb, &pre.box_cells, target_boxes);
    let mut nodes: Vec<ANode> = Vec::new();
    let mut open: Vec<(u32, usize)> = Vec::new();
    let mut seen = new_seen_set();
    let _ = mark_seen(&mut seen, keeper_zone, &pre.box_cells);
    nodes.push(ANode { keeper_zone, box_cells: copy_cells(&pre.box_cells), path: Vec::new() });
    open.push((h, 0));
    proof {
        assert(nodes@[0].path@ =~= Seq::<(usize, Direction)>::empty());
    }
    let mut expanded: usize = 0;
    let mut found: Option<Vec<(usize, Direction)>> = None;
    let ghost at_once = pre.box_cells@ == target_boxes@ && max_pushes > 0;
    let ghost mut first = true;
    loop
        invariant_except_break
            found is None,
            first ==> open@.len() == 1 && open@[0].1 == 0 && nodes@[0].box_cells@ == boxes0 && nodes@[0].path@.len() == 0,
            !first ==> !at_once,
        invariant
            at_once == (pre.box_cells@ == target_boxes@ && max_pushes > 0),
            cb.wf(),
            deadlocks.wf(cb),
            crate::compiled_board::nbrs_ok(cb.nbrs(), cb.cell_count as int),
            zone0 == keeper_zone as int,
            boxes0 == pre.box_cells@,
            boxes0.len() + max_pushes <= u32::MAX,
            expanded <= MAX_EXPANDED,
            forall|i: int| 0 <= i < nodes@.len() ==> anode_ok(cb, zone0, boxes0, #[trigger] nodes@[i]),
            forall|i: int| 0 <= i < open@.len() ==> (#[trigger] open@[i]).1 < nodes@.len(),
            found matches Some(p) ==> {
                &&& p@.len() < max_pushes
                &&& legal_sequence(cb, zone0, boxes0, p@)
                &&& boxes_after(cb, boxes0, p@) == target_boxes@
            },
        ensures
            found matches Some(p) ==> {
                &&& p@.len() < max_pushes
                &&& legal_sequence(cb, zone0, boxes0, p@)
                &&& boxes_after(cb, boxes0, p@) == target_boxes@
            },
            at_once ==> (found matches Some(p) && p@.len() == 0),
        decreases MAX_EXPANDED - expanded, open@.len(),
    {
        let ghost o0 = open@;
        let entry = match pop_least(&mut open) {
            Some(e) => e,
            None => {
                break;
            },
        };
        let node_id = entry.1;
        let ghost was_first = first;
        proof {
            first = false;
            if was_first {
                assert(node_id == 0);
            }
            let i = choose|i: int|
                0 <= i < o0.len() && o0[i] == entry && open@ == o0.remove(i) && forall|j: int|
                    0 <= j < o0.len() ==> entry_le(entry, #[trigger] o0[j]);
            assert(o0[i].1 < nodes@.len());
            assert forall|t: int| 0 <= t < open@.len() implies (#[trigger] open@[t]).1 < nodes@.len() by {
                if t < i {
                    assert(open@[t] == o0[t]);
                } else {
                    assert(open@[t] == o0[t + 1]);
                }
            }
        }
        let kz = nodes[node_id].keeper_zone;
        let box_cells = copy_cells(&nodes[node_id].box_cells);
        let path = copy_pushes(&nodes[node_id].path);
        proof {
            assert(anode_ok(cb, zone0, boxes0, nodes@[node_id as int]));
        }
        if same_pairs(&box_cells, target_boxes) && path.len() < max_pushes as usize {
            found = Some(path);
            break;
        }
        let g = path.len();
        if g >= max_pushes as usize {
            continue;
        }
        expanded += 1;
        if expanded > MAX_EXPANDED {
            return None;
        }
        proof {
            lemma_pairs_sorted_cells(box_cells@);
        }
        let reach = keeper_reachable(cb, kz, &box_cells);
        let ghost cur = box_cells@;
        let ghost keeper = keeper_after(cb, zone0, boxes0, path@);
        let mut bi: usize = 0;
        while bi < box_cells.len()
            invariant
                cb.wf(),
                deadlocks.wf(cb),
                crate::compiled_board::nbrs_ok(cb.nbrs(), cb.cell_count as int),
                zone0 == keeper_zone as int,
                boxes0 == pre.box_cells@,
                boxes0.len() + max_pushes <= u32::MAX,
                expanded <= MAX_EXPANDED,
                found is None,
                cur == box_cells@,
                pairs_sorted(cur),
                on_board(cb, cur),
                cur.len() == boxes0.len(),
                legal_sequence(cb, zone0, boxes0, path@),
                boxes_after(cb, boxes0, path@) == cur,
                keeper == keeper_after(cb, zone0, boxes0, path@),
                kz < cb.cell_count || kz == INVALID_CELL,
                (path@.len() == 0 && kz == zone0) || (keeper != INVALID_CELL && kz != INVALID_CELL && reachable(
                    walks(cb.nbrs(), cur),
                    keeper,
                    kz as int,
                )),
                g == path@.len(),
                g < max_pushes,
                reach@.len() == cb.cell_count,
                forall|c: int|
                    0 <= c < cb.cell_count ==> #[trigger] reach@[c] == (kz != INVALID_CELL && reachable(
                        walks(cb.nbrs(), cur),
                        kz as int,
                        c,
                    )),
                sorted_cells(cur),
                bi <= cur.len(),
                forall|i: int| 0 <= i < nodes@.len() ==> anode_ok(cb, zone0, boxes0, #[trigger] nodes@[i]),
                forall|i: int| 0 <= i < open@.len() ==> (#[trigger] open@[i]).1 < nodes@.len(),
            decreases cur.len() - bi,
        {
            let box_cell = box_cells[bi].0;
            let mut k: usize = 0;
            while k < 4
                invariant
                    cb.wf(),
                    deadlocks.wf(cb),
                    crate::compiled_board::nbrs_ok(cb.nbrs(), cb.cell_count as int),
                    zone0 == keeper_zone as int,
                    boxes0 == pre.box_cells@,
                    boxes0.len() + max_pushes <= u32::MAX,
                    expanded <= MAX_EXPANDED,
                    found is None,
                    cur == box_cells@,
                    pairs_sorted(cur),
                    on_board(cb, cur),
                    cur.len() == boxes0.len(),
                    legal_sequence(cb, zone0, boxes0, path@),
                    boxes_after(cb, boxes0, path@) == cur,
                    keeper == keeper_after(cb, zone0, boxes0, path@),
                    kz < cb.cell_count || kz == INVALID_CELL,
                    (path@.len() == 0 && kz == zone0) || (keeper != INVALID_CELL && kz != INVALID_CELL && reachable(
                        walks(cb.nbrs(), cur),
                        keeper,
                        kz as int,
                    )),
                    g == path@.len(),
                    g < max_pushes,
                    reach@.len() == cb.cell_count,
                    forall|c: int|
                        0 <= c < cb.cell_count ==> #[trigger] reach@[c] == (kz != INVALID_CELL && reachable(
                            walks(cb.nbrs(), cur),
                            kz as int,
                            c,
                        )),
                    sorted_cells(cur),
                    bi < cur.len(),
                    box_cell == cur[bi as int].0,
                    box_cell < cb.cell_count,
                    k <= 4,
                    forall|i: int| 0 <= i < nodes@.len() ==> anode_ok(cb, zone0, boxes0, #[trigger] nodes@[i]),
                    forall|i: int| 0 <= i < open@.len() ==> (#[trigger] open@[i]).1 < nodes@.len(),
                decreases 4 - k,
            {
                let dir = direction_at(k);
                k += 1;
                let target = cb.neighbor(box_cell, dir);
                if target == INVALID_CELL {
                    continue;
                }
                if contains_cell(&box_cells, target) {
                    continue;
                }
                let push_from = cb.neighbor(box_cell, dir.opposite());
                if push_from == INVALID_CELL {
                    continue;
                }
                if contains_cell(&box_cells, push_from) {
                    continue;
                }
                if !reach[push_from as usize] {
                    continue;
                }
                let new_boxes = moved_pairs(&box_cells, bi, target);
                proof {
                    lemma_pairs_sorted_cells(new_boxes@);
                    lemma_push_on_board(cb, cur, bi as int, dir);
                }
                let new_keeper = canonical_keeper(cb, box_cell, &new_boxes);
                if !mark_seen(&mut seen, new_keeper, &new_boxes) {
                    continue;
                }
                if deadlocks.is_deadlocked_quick(cb, &new_boxes) {
                    continue;
                }
                let new_g = (g + 1) as u32;
                let new_h = heuristic_to_target(cb, &new_boxes, target_boxes);
                proof {
                    assert(mismatches(
                        new_boxes@,
                        target_boxes@,
                        shorter_len(new_boxes@.len() as int, target_boxes@.len() as int),
                    ) <= new_boxes@.len()) by {
                        lemma_mismatches_le(
                            new_boxes@,
                            target_boxes@,
                            shorter_len(new_boxes@.len() as int, target_boxes@.len() as int),
                        );
                    }
                }
                let new_f = new_g + new_h;
                let mut new_path = copy_pushes(&path);
                new_path.push((bi, dir));
                let next = ANode { keeper_zone: new_keeper, box_cells: new_boxes, path: new_path };
                proof {
                    let p2 = next.path@;
                    assert(p2.drop_last() =~= path@);
                    assert(p2.last() == (bi, dir));
                    if !(path@.len() == 0 && kz == zone0) {
                        lemma_reachable_trans(walks(cb.nbrs(), cur), keeper, kz as int, push_from as int);
                    }
                    assert(crate::improvement::legal_move(cb, keeper, cur, (bi, dir)));
                    lemma_push_boxes(cb, cur, bi as int, dir);
                    assert(anode_ok(cb, zone0, boxes0, next));
                }
                let new_id = nodes.len();
                let ghost nb0 = nodes@;
                nodes.push(next);
                open.push((new_f, new_id));
                proof {
                    assert forall|i: int| 0 <= i < nodes@.len() implies anode_ok(cb, zone0, boxes0, #[trigger] nodes@[i]) by {
                        if i < nb0.len() {
                            assert(nodes@[i] == nb0[i]);
                        }
                    }
                }
            }
            bi += 1;
        }
    }
    proof {
        if found is Some {
            let p = found->0@;
            if pre.keeper != INVALID_CELL {
                lemma_legal_from_zone(cb, zone0, pre.keeper as int, boxes0, p);
            } else {
                lemma_legal_needs_keeper(cb, zone0, boxes0, p);
            }
        }
    }
    found
}

proof fn lemma_mismatches_le(current: Seq<(u16, u8)>, target: Seq<(u16, u8)>, k: int)
    requires
        0 <= k,
    ensures
        mismatches(current, target, k) <= k,
    decreases k,
{
    if k > 0 {
        lemma_mismatches_le(current, target, k - 1);
    }
}

/// The boxes after the pushes, where a push whose box has no cell ahead
/// leaves the boxes as they are.
pub open spec fn cross_boxes(cb: &CompiledBoard, boxes: Seq<(u16, u8)>, pushes: Seq<(usize, Direction)>) -> Seq<(u16, u8)>
    decreases pushes.len(),
{
    if pushes.len() == 0 {
        boxes
    } else {
        let before = cross_boxes(cb, boxes, pushes.drop_last());
        let bi = pushes.last().0 as int;
        if ahead(cb, before[bi].0 as int, pushes.last().1) == INVALID_CELL {
            before
        } else {
            push_boxes(cb, before, bi, pushes.last().1)
        }
    }
}

/// Push `i` moves a box off a doorway, or onto one.
pub open spec fn crosses_doorway(
    cb: &CompiledBoard,
    rooms: &RoomMap,
    boxes: Seq<(u16, u8)>,
    pushes: Seq<(usize, Direction)>,
    i: int,
) -> bool {
    let before = cross_boxes(cb, boxes, pushes.take(i));
    let cell = before[pushes[i].0 as int].0 as int;
    let target = ahead(cb, cell, pushes[i].1) as int;
    rooms.is_doorway@[cell] || (target != INVALID_CELL && rooms.is_doorway@[target])
}

/// The places, among the first `k` pushes, of those that cross a doorway.
pub open spec fn crossing_points(
    cb: &CompiledBoard,
    rooms: &RoomMap,
    boxes: Seq<(u16, u8)>,
    pushes: Seq<(usize, Direction)>,
    k: int,
) -> Seq<usize>
    decreases k,
{
    if k <= 0 {
        seq![]
    } else {
        let before = crossing_points(cb, rooms, boxes, pushes, k - 1);
        if crosses_doorway(cb, rooms, boxes, pushes, k - 1) {
            before.push((k - 1) as usize)
        } else {
            before
        }
    }
}

/// Every place among the first `k` pushes lies below `k`.
proof fn lemma_crossing_points_below(
    cb: &CompiledBoard,
    rooms: &RoomMap,
    boxes: Seq<(u16, u8)>,
    pushes: Seq<(usize, Direction)>,
    k: int,
)
    ensures
        forall|i: int|
            0 <= i < crossing_points(cb, rooms, boxes, pushes, k).len() ==> #[trigger] crossing_points(
                cb,
                rooms,
                boxes,
                pushes,
                k,
            )[i] < k,
    decreases k,
{
    if k > 0 {
        lemma_crossing_points_below(cb, rooms, boxes, pushes, k - 1);
        let before = crossing_points(cb, rooms, boxes, pushes, k - 1);
        let cur = crossing_points(cb, rooms, boxes, pushes, k);
        assert forall|i: int| 0 <= i < cur.len() implies #[trigger] cur[i] < k by {
            if i < before.len() {
                assert(cur[i] == before[i]);
            }
        }
    }
}

/// The pushes before the first doorway crossing, 2 to `MAX_SEGMENT_PUSHES`
/// of them, bring the boxes back to where they started.
pub open spec fn idle_lead(cb: &CompiledBoard, rooms: &RoomMap, pushes: Seq<(usize, Direction)>) -> bool {
    let cs = crossing_points(cb, rooms, start_boxes(cb), pushes, pushes.len() as int);
    &&& cs.len() > 0
    &&& 2 <= cs[0] <= MAX_SEGMENT_PUSHES
    &&& boxes_after(cb, start_boxes(cb), pushes.take(cs[0] as int)) == start_boxes(cb)
}

/// The places of the pushes that move a box off a doorway or onto one,
/// following the pushes from the start; a push whose box has no cell ahead
/// moves nothing.
pub fn find_doorway_crossings(cb: &CompiledBoard, rooms: &RoomMap, pushes: &[(usize, Direction)]) -> (crossings: Vec<usize>)
    requires
        cb.wf(),
        rooms.is_doorway@.len() == cb.cell_count,
        on_board(cb, start_boxes(cb)),
        forall|i: int| 0 <= i < pushes@.len() ==> (#[trigger] pushes@[i]).0 < start_boxes(cb).len(),
    ensures
        crossings@ == crossing_points(cb, rooms, start_boxes(cb), pushes@, pushes@.len() as int),
{
    proof {
        cb.lemma_wf();
    }
    let ghost start = start_boxes(cb);
    let ghost ps = pushes@;
    let mut crossings: Vec<usize> = Vec::new();
    let mut box_cells = sorted_start_boxes(cb);
    let mut pi: usize = 0;
    while pi < pushes.len()
        invariant
            cb.wf(),
            crate::compiled_board::nbrs_ok(cb.nbrs(), cb.cell_count as int),
            rooms.is_doorway@.len() == cb.cell_count,
            start == start_boxes(cb),
            ps == pushes@,
            forall|i: int| 0 <= i < ps.len() ==> (#[trigger] ps[i]).0 < start.len(),
            pi <= ps.len(),
            box_cells@ == cross_boxes(cb, start, ps.take(pi as int)),
            box_cells@.len() == start.len(),
            on_board(cb, box_cells@),
            crossings@ == crossing_points(cb, rooms, start, ps, pi as int),
        decreases ps.len() - pi,
    {
        let (box_index, dir) = pushes[pi];
        proof {
            assert(ps.take(pi + 1).drop_last() =~= ps.take(pi as int));
            assert(ps.take(pi + 1).last() == (box_index, dir));
            assert(ps[pi as int] == (box_index, dir));
        }
        let box_cell = box_cells[box_index].0;
        let target = cb.neighbor(box_cell, dir);
        if rooms.is_doorway(box_cell) || (target != INVALID_CELL && rooms.is_doorway(target)) {
            crossings.push(pi);
        }
        if target != INVALID_CELL {
            proof {
                lemma_push_on_board(cb, box_cells@, box_index as int, dir);
                lemma_push_boxes(cb, box_cells@, box_index as int, dir);
            }
            let v = moved_pairs(&box_cells, box_index, target);
            box_cells = v;
        }
        pi += 1;
    }
    proof {
        assert(ps.take(pi as int) =~= ps);
    }
    crossings
}

/// Shortens a push sequence between the pushes that cross doorways: the
/// sequence is cut at every such push, and each piece of 2 to
/// `MAX_SEGMENT_PUSHES` pushes is searched again (A*) for a shorter sequence
/// from the state before it to the boxes after it, which then takes its
/// place. Nothing happens with fewer than 3 pushes, on a board without
/// doorways, or when no push crosses one. The pushes stay fine and end with
/// the same boxes, and a first piece that brings the boxes back to where they
/// started is taken out. Returns the number of pushes saved.
pub fn bridge_astar_improve(
    cb: &CompiledBoard,
    deadlocks: &DeadlockChecker,
    rooms: &RoomMap,
    pushes: &mut Vec<(usize, Direction)>,
) -> (saved: u32)
    requires
        cb.wf(),
        deadlocks.wf(cb),
        rooms.is_doorway@.len() == cb.cell_count,
        on_board(cb, start_boxes(cb)),
        moves_ok(cb, start_boxes(cb), old(pushes)@),
        old(pushes)@.len() <= i32::MAX,
        cb.initial_box_cells@.len() + MAX_SEGMENT_PUSHES <= u32::MAX,
    ensures
        moves_ok(cb, start_boxes(cb), final(pushes)@),
        boxes_after(cb, start_boxes(cb), final(pushes)@) == boxes_after(cb, start_boxes(cb), old(pushes)@),
        final(pushes)@.len() <= old(pushes)@.len(),
        saved == old(pushes)@.len() - final(pushes)@.len(),
        old(pushes)@.len() < 3 || rooms.doorway_count == 0 ==> final(pushes)@ == old(pushes)@,
        old(pushes)@.len() >= 3 && rooms.doorway_count > 0 && idle_lead(cb, rooms, old(pushes)@) ==> final(pushes)@.len()
            < old(pushes)@.len(),
{
    if pushes.len() < 3 || rooms.doorway_count == 0 {
        return 0;
    }
    let ghost start = start_boxes(cb);
    let ghost orig = pushes@;
    let starts = sorted_start_boxes(cb);
    proof {
        lemma_moves_indices(cb, start, orig);
    }
    let initial_len = pushes.len() as u32;
    let breakpoints = find_doorway_crossings(cb, rooms, pushes);
    if breakpoints.len() == 0 {
        return 0;
    }
    let mut boundaries: Vec<usize> = Vec::new();
    boundaries.push(0);
    let mut t: usize = 0;
    while t < breakpoints.len()
        invariant
            boundaries@.len() >= 1,
            boundaries@.len() <= t + 1,
            t <= breakpoints@.len(),
            boundaries@[0] == 0,
            t >= 1 && breakpoints@[0] != 0 ==> boundaries@.len() >= 2 && boundaries@[1] == breakpoints@[0],
        decreases breakpoints@.len() - t,
    {
        let bp = breakpoints[t];
        if boundaries[boundaries.len() - 1] != bp {
            boundaries.push(bp);
        }
        t += 1;
    }
    boundaries.push(pushes.len());
    let ghost lead = idle_lead(cb, rooms, orig);
    proof {
        lemma_crossing_points_below(cb, rooms, start, orig, orig.len() as int);
        if lead {
            assert(boundaries@[1] == breakpoints@[0]);
            assert(orig.take(0) =~= Seq::<(usize, Direction)>::empty());
        }
    }
    let mut total_saved: u32 = 0;
    let mut shift: usize = 0;
    let mut wi: usize = 0;
    let nb = boundaries.len();
    while wi + 1 < nb
        invariant
            nb == boundaries@.len(),
            wi < nb,
            cb.wf(),
            deadlocks.wf(cb),
            start == start_boxes(cb),
            on_board(cb, start),
            starts@.len() == cb.initial_box_cells@.len(),
            starts@ == start,
            cb.initial_box_cells@.len() + MAX_SEGMENT_PUSHES <= u32::MAX,
            moves_ok(cb, start, pushes@),
            boxes_after(cb, start, pushes@) == boxes_after(cb, start, orig),
            pushes@.len() + shift == orig.len(),
            total_saved == shift,
            orig.len() <= i32::MAX,
            initial_len == orig.len(),
            lead == idle_lead(cb, rooms, orig),
            lead ==> boundaries@.len() >= 2 && boundaries@[0] == 0 && boundaries@[1] == crossing_points(
                cb,
                rooms,
                start,
                orig,
                orig.len() as int,
            )[0] && 2 <= boundaries@[1] <= MAX_SEGMENT_PUSHES && boundaries@[1] < orig.len() && boxes_after(
                cb,
                start,
                orig.take(boundaries@[1] as int),
            ) == boxes_after(cb, start, orig.take(0)),
            lead && wi >= 1 ==> shift > 0,
            wi == 0 ==> shift == 0 && pushes@ == orig,
        decreases boundaries@.len() - wi,
    {
        let b0 = boundaries[wi];
        let b1 = boundaries[wi + 1];
        wi += 1;
        if b0 < shift || b1 < shift {
            continue;
        }
        let seg_start = b0 - shift;
        let orig_end = b1 - shift;
        if orig_end > pushes.len() || seg_start >= orig_end {
            continue;
        }
        let seg_len = orig_end - seg_start;
        if seg_len > MAX_SEGMENT_PUSHES as usize || seg_len < 2 {
            continue;
        }
        let ghost p = pushes@;
        proof {
            lemma_prefix_ok(cb, start, p, seg_start as int);
            lemma_prefix_ok(cb, start, p, orig_end as int);
            lemma_moves_in_range(cb, start, p.take(seg_start as int));
            lemma_moves_in_range(cb, start, p.take(orig_end as int));
        }
        let pre = replay_to_offset(cb, pushes, seg_start);
        let post = replay_to_offset(cb, pushes, orig_end);
        proof {
            cb.lemma_wf();
            lemma_moves_on_board(cb, start, p.take(seg_start as int));
            if seg_start > 0 {
                assert(p.take(seg_start as int).drop_last().len() + 1 == seg_start);
            }
        }
        match astar_segment(cb, deadlocks, &pre, &post.box_cells, (seg_len - 1) as u32) {
            Some(shorter) => {
                let saved = seg_len - shorter.len();
                proof {
                    let window = p.subrange(seg_start as int, orig_end as int);
                    assert(p.take(orig_end as int) =~= p.take(seg_start as int) + window);
                    crate::improvement::lemma_boxes_after_concat(cb, start, p.take(seg_start as int), window);
                    lemma_legal_moves_ok(cb, pre.keeper as int, pre.box_cells@, shorter@);
                    lemma_splice(cb, start, p, seg_start as int, seg_len as int, shorter@);
                }
                splice_pushes(pushes, seg_start, seg_len, &shorter);
                shift = shift + saved;
                total_saved = total_saved + saved as u32;
            },
            None => {},
        }
    }
    let final_len = pushes.len() as u32;
    let diff = if initial_len > final_len {
        initial_len - final_len
    } else {
        0
    };
    if diff > total_saved {
        diff
    } else {
        total_saved
    }
}

} // verus!
