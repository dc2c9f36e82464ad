use vstd::prelude::*;

use crate::bfs::{bfs_lists, lemma_single_source, lists};
use crate::compiled_board::{nbrs_symmetric, CompiledBoard, INVALID_CELL};
use crate::graph::{lemma_least_hops, least_hops, reachable};
use crate::planning::adjacency::{build_room_adjacency, lemma_lists_are_links, room_links, rooms_fit};
use crate::planning::rooms::{RoomMap, NO_ROOM};

verus! {

broadcast use vstd::std_specs::vec::group_vec_axioms;

/// For every box at the start, the least number of doorway crossings
/// between it and a goal of its label. Boxes that must cross many doorways
/// take more moves and are worth moving first.
pub struct DoorwaySchedule {
    box_crossings: Vec<u16>,
}

/// The room a box or goal on `cell` counts in: none on a doorway.
pub open spec fn region_of(rooms: &RoomMap, cell: int) -> Option<u16> {
    if rooms.is_doorway@[cell] || rooms.room_id@[cell] == NO_ROOM {
        None
    } else {
        Some(rooms.room_id@[cell])
    }
}

/// The number of hops from room `a` to room `b` on a shortest path through
/// clusters of doorways, or `u16::MAX` when none leads there.
pub open spec fn room_hops(cb: &CompiledBoard, rooms: &RoomMap, a: u16, b: u16) -> int {
    let step = room_links(cb.nbrs(), rooms.is_doorway@, rooms.room_id@);
    if a == b {
        0
    } else if reachable(step, a as int, b as int) {
        least_hops(step, a as int, b as int) as int
    } else {
        u16::MAX as int
    }
}

/// The crossings counted for a box in `box_room` towards the goal on
/// `goal_cell`: 0 unless both lie in rooms.
pub open spec fn goal_crossings(cb: &CompiledBoard, rooms: &RoomMap, box_room: Option<u16>, goal_cell: int) -> int {
    match box_room {
        Some(br) => match region_of(rooms, goal_cell) {
            Some(gr) => room_hops(cb, rooms, br, gr),
            None => 0,
        },
        None => 0,
    }
}

/// The least crossings towards the first `k` goals of label `label`, or
/// `u16::MAX` when there is none.
pub open spec fn least_crossings(cb: &CompiledBoard, rooms: &RoomMap, box_room: Option<u16>, label: u8, k: int) -> int
    decreases k,
{
    if k <= 0 {
        u16::MAX as int
    } else {
        let p = least_crossings(cb, rooms, box_room, label, k - 1);
        let g = cb.goal_cells@[k - 1];
        let c = goal_crossings(cb, rooms, box_room, g.0 as int);
        if g.1.0 == label && c < p {
            c
        } else {
            p
        }
    }
}

/// The doorway crossings of a box of label `label` on `cell`: the least
/// over the goals of its label, and 0 when no goal of its label can be
/// reached.
pub open spec fn doorway_crossings(cb: &CompiledBoard, rooms: &RoomMap, cell: int, label: u8) -> int {
    let m = least_crossings(cb, rooms, region_of(rooms, cell), label, cb.goal_cells@.len() as int);
    if m == u16::MAX {
        0
    } else {
        m
    }
}

/// The crossings of the first `k` boxes that are not on a goal of their
/// label.
pub open spec fn crossing_total(cb: &CompiledBoard, rooms: &RoomMap, boxes: Seq<(u16, u8)>, k: int) -> int
    decreases k,
{
    if k <= 0 {
        0
    } else {
        crossing_total(cb, rooms, boxes, k - 1) + if cb.goal_at_cell(boxes[k - 1].0 as int) == Some(boxes[k - 1].1) {
            0
        } else {
            doorway_crossings(cb, rooms, boxes[k - 1].0 as int, boxes[k - 1].1)
        }
    }
}

/// The largest of the first `k` entries of `s`, or 0 when `k` is 0.
pub open spec fn max_upto(s: Seq<u16>, k: int) -> int
    decreases k,
{
    if k <= 0 {
        0
    } else {
        let p = max_upto(s, k - 1);
        if s[k - 1] > p {
            s[k - 1] as int
        } else {
            p
        }
    }
}

proof fn lemma_least_crossings_bound(cb: &CompiledBoard, rooms: &RoomMap, box_room: Option<u16>, label: u8, k: int)
    ensures
        least_crossings(cb, rooms, box_room, label, k) <= u16::MAX,
    decreases k,
{
    if k > 0 {
        lemma_least_crossings_bound(cb, rooms, box_room, label, k - 1);
    }
}

proof fn lemma_crossing_total_bound(cb: &CompiledBoard, rooms: &RoomMap, boxes: Seq<(u16, u8)>, k: int)
    requires
        0 <= k,
    ensures
        crossing_total(cb, rooms, boxes, k) <= 65535 * k,
    decreases k,
{
    if k > 0 {
        lemma_crossing_total_bound(cb, rooms, boxes, k - 1);
        lemma_least_crossings_bound(
            cb,
            rooms,
            region_of(rooms, boxes[k - 1].0 as int),
            boxes[k - 1].1,
            cb.goal_cells@.len() as int,
        );
    }
}

/// The number of hops between rooms `from` and `to` through clusters of
/// doorways, or `None` when no path joins them.
fn room_bfs_distance(rooms: &RoomMap, cb: &CompiledBoard, from: u16, to: u16) -> (d: Option<u16>)
    requires
        cb.wf(),
        rooms_fit(cb, rooms),
        from < rooms.room_count,
        to < rooms.room_count,
    ensures
        from == to ==> d == Some(0u16),
        nbrs_symmetric(cb.nbrs()) ==> (d is Some <==> from == to || reachable(
            room_links(cb.nbrs(), rooms.is_doorway@, rooms.room_id@),
            from as int,
            to as int,
        )),
        nbrs_symmetric(cb.nbrs()) ==> room_hops(cb, rooms, from, to) == match d {
            Some(k) => k as int,
            None => u16::MAX as int,
        },
{
    if from == to {
        return Some(0);
    }
    let adj = build_room_adjacency(cb, rooms);
    let sources: Vec<u16> = vec![from];
    let dist = bfs_lists(rooms.room_count, &adj, &sources);
    let d = dist[to as usize];
    proof {
        if nbrs_symmetric(cb.nbrs()) {
            lemma_lists_are_links(cb, rooms, adj@);
            let step = lists(adj@);
            assert(sources@ == seq![from]);
            lemma_single_source(step, from, to as int);
            if d != INVALID_CELL {
                assert forall|j: nat| j < d implies !#[trigger] crate::graph::reaches_in(step, from as int, to as int, j) by {
                    assert(!crate::bfs::reaches_from(step, sources@, to as int, j));
                }
                assert(crate::bfs::reaches_from(step, sources@, to as int, d as nat));
                lemma_least_hops(step, from as int, to as int, d as nat);
            }
        }
    }
    if d == INVALID_CELL {
        None
    } else {
        Some(d)
    }
}

/// The least number of doorway crossings between a box of label `label` on
/// `cell` and a goal of its label: 0 when the box or the goal lies on a
/// doorway, the room hops between their rooms otherwise, and 0 when no goal
/// of the label can be reached.
fn min_doorway_crossings(cb: &CompiledBoard, rooms: &RoomMap, cell: u16, label: u8) -> (c: u16)
    requires
        cb.wf(),
        rooms_fit(cb, rooms),
        cell < cb.cell_count,
    ensures
        nbrs_symmetric(cb.nbrs()) ==> c == doorway_crossings(cb, rooms, cell as int, label),
{
    proof {
        cb.lemma_wf();
    }
    let box_room: Option<u16> = if rooms.is_doorway(cell) {
        None
    } else {
        rooms.cell_room(cell)
    };
    let mut min_crossings: u16 = 65535;
    let mut gi: usize = 0;
    while gi < cb.goal_cells.len()
        invariant
            cb.wf(),
            rooms_fit(cb, rooms),
            gi <= cb.goal_cells@.len(),
            box_room == region_of(rooms, cell as int),
            box_room matches Some(br) ==> br < rooms.room_count,
            nbrs_symmetric(cb.nbrs()) ==> min_crossings == least_crossings(cb, rooms, box_room, label, gi as int),
        decreases cb.goal_cells@.len() - gi,
    {
        proof {
            cb.lemma_wf();
        }
        let (goal_cell, goal_label) = cb.goal_cells[gi];
        if goal_label.0 != label {
            gi += 1;
            continue;
        }
        let goal_room: Option<u16> = if rooms.is_doorway(goal_cell) {
            None
        } else {
            rooms.cell_room(goal_cell)
        };
        let crossings: u16 = match box_room {
            Some(br) => match goal_room {
                Some(gr) => {
                    if br == gr {
                        0
                    } else {
                        match room_bfs_distance(rooms, cb, br, gr) {
                            Some(d) => d,
                            None => 65535,
                        }
                    }
                },
                None => 0,
            },
            None => 0,
        };
        proof {
            if nbrs_symmetric(cb.nbrs()) {
                assert(crossings == goal_crossings(cb, rooms, box_room, goal_cell as int));
            }
        }
        if crossings < min_crossings {
            min_crossings = crossings;
        }
        gi += 1;
    }
    if min_crossings == 65535 {
        0
    } else {
        min_crossings
    }
}

impl DoorwaySchedule {
    /// The crossings of the boxes at the start, in the order of the boxes.
    pub closed spec fn crossings(&self) -> Seq<u16> {
        self.box_crossings@
    }

    /// The doorway crossings of every box at the start.
    pub fn build(cb: &CompiledBoard, rooms: &RoomMap) -> (s: DoorwaySchedule)
        requires
            cb.wf(),
            rooms_fit(cb, rooms),
            forall|i: int| 0 <= i < cb.initial_box_cells@.len() ==> (#[trigger] cb.initial_box_cells@[i]).0 < cb.cell_count,
        ensures
            s.crossings().len() == cb.initial_box_cells@.len(),
            nbrs_symmetric(cb.nbrs()) ==> forall|i: int|
                0 <= i < cb.initial_box_cells@.len() ==> #[trigger] s.crossings()[i] == doorway_crossings(
                    cb,
                    rooms,
                    cb.initial_box_cells@[i].0 as int,
                    cb.initial_box_cells@[i].1.0,
                ),
    {
        let mut box_crossings: Vec<u16> = Vec::new();
        let mut i: usize = 0;
        while i < cb.initial_box_cells.len()
            invariant
                cb.wf(),
                rooms_fit(cb, rooms),
                forall|q: int|
                    0 <= q < cb.initial_box_cells@.len() ==> (#[trigger] cb.initial_box_cells@[q]).0 < cb.cell_count,
                i <= cb.initial_box_cells@.len(),
                box_crossings@.len() == i,
                nbrs_symmetric(cb.nbrs()) ==> forall|q: int|
                    0 <= q < i ==> #[trigger] box_crossings@[q] == doorway_crossings(
                        cb,
                        rooms,
                        cb.initial_box_cells@[q].0 as int,
                        cb.initial_box_cells@[q].1.0,
                    ),
            decreases cb.initial_box_cells@.len() - i,
        {
            let (box_cell, box_label) = cb.initial_box_cells[i];
            let crossings = min_doorway_crossings(cb, rooms, box_cell, box_label.0);
            box_crossings.push(crossings);
            i += 1;
        }
        DoorwaySchedule { box_crossings }
    }

    /// The crossings of box `box_index` at the start, or 0 beyond the boxes.
    pub fn crossings_for_box(&self, box_index: usize) -> (c: u16)
        ensures
            c == if box_index < self.crossings().len() {
                self.crossings()[box_index as int]
            } else {
                0
            },
    {
        if box_index < self.box_crossings.len() {
            self.box_crossings[box_index]
        } else {
            0
        }
    }

    /// The doorway crossings of a box of label `label` on `cell`.
    pub fn crossings_from_cell(cb: &CompiledBoard, rooms: &RoomMap, cell: u16, label: u8) -> (c: u16)
        requires
            cb.wf(),
            rooms_fit(cb, rooms),
            cell < cb.cell_count,
        ensures
            nbrs_symmetric(cb.nbrs()) ==> c == doorway_crossings(cb, rooms, cell as int, label),
    {
        min_doorway_crossings(cb, rooms, cell, label)
    }

    /// The sum of the doorway crossings of the boxes not on a goal of their
    /// label: higher means more work through doorways is left.
    pub fn total_crossing_priority(&self, cb: &CompiledBoard, rooms: &RoomMap, box_cells: &[(u16, u8)]) -> (total: u32)
        requires
            cb.wf(),
            rooms_fit(cb, rooms),
            forall|i: int| 0 <= i < box_cells@.len() ==> (#[trigger] box_cells@[i]).0 < cb.cell_count,
            65535 * box_cells@.len() <= u32::MAX,
        ensures
            total <= 65535 * box_cells@.len(),
            nbrs_symmetric(cb.nbrs()) ==> total == crossing_total(cb, rooms, box_cells@, box_cells@.len() as int),
    {
        let mut total: u32 = 0;
        let mut i: usize = 0;
        while i < box_cells.len()
            invariant
                cb.wf(),
                rooms_fit(cb, rooms),
                forall|q: int| 0 <= q < box_cells@.len() ==> (#[trigger] box_cells@[q]).0 < cb.cell_count,
                65535 * box_cells@.len() <= u32::MAX,
                i <= box_cells@.len(),
                total <= 65535 * i,
                nbrs_symmetric(cb.nbrs()) ==> total == crossing_total(cb, rooms, box_cells@, i as int),
            decreases box_cells@.len() - i,
        {
            proof {
                assert(65535 * i + 65535 <= 65535 * box_cells@.len()) by (nonlinear_arith)
                    requires
                        i < box_cells@.len(),
                ;
            }
            let (cell, label) = box_cells[i];
            if cb.goal_matches(cell, label) {
                i += 1;
                continue;
            }
            let crossings = min_doorway_crossings(cb, rooms, cell, label);
            total = total + crossings as u32;
            i += 1;
        }
        total
    }

    /// The most crossings of any box at the start, or 0 without boxes.
    pub fn max_crossings(&self) -> (m: u16)
        ensures
            m == max_upto(self.crossings(), self.crossings().len() as int),
    {
        let mut m: u16 = 0;
        let mut i: usize = 0;
        while i < self.box_crossings.len()
            invariant
                i <= self.crossings().len(),
                m == max_upto(self.crossings(), i as int),
            decreases self.crossings().len() - i,
        {
            if self.box_crossings[i] > m {
                m = self.box_crossings[i];
            }
            i += 1;
        }
        m
    }
}

} // verus!
