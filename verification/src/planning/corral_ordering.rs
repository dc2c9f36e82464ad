use vstd::prelude::*;

use crate::bfs::{bfs_lists, shortest_from};
use crate::compiled_board::{nbrs_symmetric, CompiledBoard};
use crate::planning::adjacency::{build_room_adjacency, lemma_lists_are_links, room_links, rooms_fit};
use crate::planning::rooms::{adjacent_rooms, contains_room, RoomMap, NO_ROOM};

verus! {

broadcast use vstd::std_specs::vec::group_vec_axioms;

/// The distance of a room from which no goal room can be reached.
pub const NO_DIST: u16 = 65535;

/// Room distances for ordering the work of a beam search: every room's
/// least number of hops, through doorway clusters, to a room with a goal.
/// Boxes in rooms far from the goals are worth moving first.
pub struct CorralOrdering {
    room_goal_dist: Vec<u16>,
}

/// Room `r` holds a goal, or is the room of a neighbour of a goal on a
/// doorway.
pub open spec fn goal_room(cb: &CompiledBoard, rooms: &RoomMap, r: u16) -> bool {
    exists|g: int|
        0 <= g < cb.goal_cells@.len() && #[trigger] goal_room_of(cb, rooms, cb.goal_cells@[g].0 as int, r)
}

/// Room `r` is the room of goal cell `gc`, or of a neighbour of it when it
/// is a doorway.
pub open spec fn goal_room_of(cb: &CompiledBoard, rooms: &RoomMap, gc: int, r: u16) -> bool {
    if rooms.is_doorway@[gc] {
        adjacent_rooms(cb.nbrs(), rooms.room_id@, gc, 4).contains(r)
    } else {
        rooms.room_id@[gc] == r && r != NO_ROOM
    }
}

/// `dist` holds, for every room, the least number of hops to a goal room,
/// and `NO_DIST` where none can be reached.
pub open spec fn goal_distances(cb: &CompiledBoard, rooms: &RoomMap, dist: Seq<u16>) -> bool {
    exists|srcs: Seq<u16>|
        (forall|r: u16| #[trigger] srcs.contains(r) <==> goal_room(cb, rooms, r)) && #[trigger] shortest_from(
            room_links(cb.nbrs(), rooms.is_doorway@, rooms.room_id@),
            srcs,
            dist,
            rooms.room_count as int,
            NO_DIST as int,
        )
}

/// For every room, the least number of hops to a room with a goal.
fn compute_room_goal_distances(cb: &CompiledBoard, rooms: &RoomMap) -> (dist: Vec<u16>)
    requires
        cb.wf(),
        rooms_fit(cb, rooms),
    ensures
        dist@.len() == rooms.room_count,
        nbrs_symmetric(cb.nbrs()) ==> goal_distances(cb, rooms, dist@),
{
    proof {
        cb.lemma_wf();
    }
    let n_rooms = rooms.room_count;
    if n_rooms == 0 {
        let empty: Vec<u16> = Vec::new();
        proof {
            if nbrs_symmetric(cb.nbrs()) {
                let srcs = Seq::<u16>::empty();
                assert forall|r: u16| #[trigger] srcs.contains(r) <==> goal_room(cb, rooms, r) by {
                    if goal_room(cb, rooms, r) {
                        let g = choose|g: int| 0 <= g < cb.goal_cells@.len() && #[trigger] goal_room_of(cb, rooms, cb.goal_cells@[g].0 as int, r);
                        lemma_goal_room_in_range(cb, rooms, cb.goal_cells@[g].0 as int, r);
                    }
                }
                assert(shortest_from(room_links(cb.nbrs(), rooms.is_doorway@, rooms.room_id@), srcs, empty@, 0, NO_DIST as int));
            }
        }
        return empty;
    }
    let adj = build_room_adjacency(cb, rooms);
    let mut sources: Vec<u16> = Vec::new();
    let mut gi: usize = 0;
    while gi < cb.goal_cells.len()
        invariant
            cb.wf(),
            rooms_fit(cb, rooms),
            n_rooms == rooms.room_count,
            gi <= cb.goal_cells@.len(),
            forall|i: int| 0 <= i < sources@.len() ==> #[trigger] sources@[i] < n_rooms,
            forall|r: u16|
                #[trigger] sources@.contains(r) <==> exists|g: int|
                    0 <= g < gi && #[trigger] goal_room_of(cb, rooms, cb.goal_cells@[g].0 as int, r),
        decreases cb.goal_cells@.len() - gi,
    {
        proof {
            cb.lemma_wf();
        }
        let goal_cell = cb.goal_cells[gi].0;
        let ghost s0 = sources@;
        if rooms.is_doorway(goal_cell) {
            let adj_rooms = rooms.rooms_adjacent_to_doorway(cb, goal_cell);
            let mut k: usize = 0;
            while k < adj_rooms.len()
                invariant
                    cb.wf(),
                    rooms_fit(cb, rooms),
                    n_rooms == rooms.room_count,
                    goal_cell < cb.cell_count,
                    gi < cb.goal_cells@.len(),
                    goal_cell == cb.goal_cells@[gi as int].0,
                    rooms.is_doorway@[goal_cell as int],
                    adj_rooms@ == adjacent_rooms(cb.nbrs(), rooms.room_id@, goal_cell as int, 4),
                    k <= adj_rooms@.len(),
                    forall|i: int| 0 <= i < sources@.len() ==> #[trigger] sources@[i] < n_rooms,
                    forall|r: u16|
                        #[trigger] sources@.contains(r) <==> (s0.contains(r) || adj_rooms@.take(k as int).contains(r)),
                decreases adj_rooms@.len() - k,
            {
                let r = adj_rooms[k];
                let ghost sb = sources@;
                proof {
                    lemma_goal_room_in_range(cb, rooms, goal_cell as int, r);
                    assert(adj_rooms@.contains(r)) by {
                        assert(adj_rooms@[k as int] == r);
                    }
                }
                if !contains_room(&sources, r) {
                    sources.push(r);
                }
                proof {
                    assert(adj_rooms@.take(k + 1) =~= adj_rooms@.take(k as int).push(r));
                    assert forall|x: u16| #[trigger] sources@.contains(x) <==> (s0.contains(x) || adj_rooms@.take(k + 1).contains(x)) by {
                        lemma_push_contains(sb, r, x);
                        lemma_push_contains(adj_rooms@.take(k as int), r, x);
                    }
                    assert forall|i: int| 0 <= i < sources@.len() implies #[trigger] sources@[i] < n_rooms by {
                        if i < sb.len() {
                            assert(sources@[i] == sb[i]);
                        }
                    }
                }
                k += 1;
            }
            proof {
                assert(adj_rooms@.take(adj_rooms@.len() as int) =~= adj_rooms@);
                assert forall|r: u16| #[trigger] sources@.contains(r) <==> exists|g: int|
                    0 <= g < gi + 1 && #[trigger] goal_room_of(cb, rooms, cb.goal_cells@[g].0 as int, r) by {
                    if sources@.contains(r) && !s0.contains(r) {
                        assert(goal_room_of(cb, rooms, cb.goal_cells@[gi as int].0 as int, r));
                    }
                    if exists|g: int| 0 <= g < gi + 1 && #[trigger] goal_room_of(cb, rooms, cb.goal_cells@[g].0 as int, r) {
                        let g = choose|g: int| 0 <= g < gi + 1 && #[trigger] goal_room_of(cb, rooms, cb.goal_cells@[g].0 as int, r);
                        if g == gi {
                            assert(adj_rooms@.contains(r));
                        } else {
                            assert(s0.contains(r));
                        }
                    }
                }
            }
        } else {
            match rooms.cell_room(goal_cell) {
                Some(room) => {
                    proof {
                        lemma_goal_room_in_range(cb, rooms, goal_cell as int, room);
                    }
                    if !contains_room(&sources, room) {
                        sources.push(room);
                    }
                    proof {
                        assert forall|r: u16| #[trigger] sources@.contains(r) <==> exists|g: int|
                            0 <= g < gi + 1 && #[trigger] goal_room_of(cb, rooms, cb.goal_cells@[g].0 as int, r) by {
                            lemma_push_contains(s0, room, r);
                            if r == room {
                                assert(goal_room_of(cb, rooms, cb.goal_cells@[gi as int].0 as int, r));
                            }
                            if exists|g: int| 0 <= g < gi + 1 && #[trigger] goal_room_of(cb, rooms, cb.goal_cells@[g].0 as int, r) {
                                let g = choose|g: int| 0 <= g < gi + 1 && #[trigger] goal_room_of(cb, rooms, cb.goal_cells@[g].0 as int, r);
                                if g < gi {
                                    assert(s0.contains(r));
                                }
                            }
                        }
                        assert forall|i: int| 0 <= i < sources@.len() implies #[trigger] sources@[i] < n_rooms by {
                            if i < s0.len() {
                                assert(sources@[i] == s0[i]);
                            }
                        }
                    }
                },
                None => {
                    proof {
                        assert forall|r: u16| #[trigger] sources@.contains(r) <==> exists|g: int|
                            0 <= g < gi + 1 && #[trigger] goal_room_of(cb, rooms, cb.goal_cells@[g].0 as int, r) by {
                            if exists|g: int| 0 <= g < gi + 1 && #[trigger] goal_room_of(cb, rooms, cb.goal_cells@[g].0 as int, r) {
                                let g = choose|g: int| 0 <= g < gi + 1 && #[trigger] goal_room_of(cb, rooms, cb.goal_cells@[g].0 as int, r);
                                if g == gi {
                                    assert(rooms.room_id@[goal_cell as int] == NO_ROOM);
                                }
                            }
                        }
                    }
                },
            }
        }
        gi += 1;
    }
    let dist = bfs_lists(n_rooms, &adj, &sources);
    proof {
        if nbrs_symmetric(cb.nbrs()) {
            lemma_lists_are_links(cb, rooms, adj@);
            let srcs = sources@;
            assert forall|r: u16| #[trigger] srcs.contains(r) <==> goal_room(cb, rooms, r) by {
                if srcs.contains(r) {
                    let g = choose|g: int| 0 <= g < cb.goal_cells@.len() && #[trigger] goal_room_of(cb, rooms, cb.goal_cells@[g].0 as int, r);
                }
                if goal_room(cb, rooms, r) {
                    let g = choose|g: int| 0 <= g < cb.goal_cells@.len() && #[trigger] goal_room_of(cb, rooms, cb.goal_cells@[g].0 as int, r);
                }
            }
            assert(shortest_from(room_links(cb.nbrs(), rooms.is_doorway@, rooms.room_id@), srcs, dist@, n_rooms as int, NO_DIST as int));
        }
    }
    dist
}

proof fn lemma_push_contains(s: Seq<u16>, v: u16, x: u16)
    ensures
        (if s.contains(v) {
            s
        } else {
            s.push(v)
        }).contains(x) <==> s.contains(x) || x == v,
        s.push(v).contains(x) <==> s.contains(x) || x == v,
{
    if s.push(v).contains(x) {
        let i = choose|i: int| 0 <= i < s.push(v).len() && s.push(v)[i] == x;
        if i < s.len() {
            assert(s[i] == x);
        }
    }
    if s.contains(x) {
        let i = choose|i: int| 0 <= i < s.len() && s[i] == x;
        assert(s.push(v)[i] == x);
    }
    assert(s.push(v)[s.len() as int] == v);
}

/// A goal room is a room of the map.
proof fn lemma_goal_room_in_range(cb: &CompiledBoard, rooms: &RoomMap, gc: int, r: u16)
    requires
        cb.wf(),
        rooms_fit(cb, rooms),
        0 <= gc < cb.cell_count,
        goal_room_of(cb, rooms, gc, r),
    ensures
        0 <= r < rooms.room_count,
{
    cb.lemma_wf();
    if rooms.is_doorway@[gc] {
        lemma_adjacent_rooms_in_range(cb, rooms, gc, 4, r);
    }
}

/// The rooms of the neighbours of a cell are rooms of the map.
proof fn lemma_adjacent_rooms_in_range(cb: &CompiledBoard, rooms: &RoomMap, c: int, k: int, r: u16)
    requires
        cb.wf(),
        rooms_fit(cb, rooms),
        0 <= c < cb.cell_count,
        0 <= k <= 4,
        adjacent_rooms(cb.nbrs(), rooms.room_id@, c, k).contains(r),
    ensures
        0 <= r < rooms.room_count,
    decreases k,
{
    cb.lemma_wf();
    let p = adjacent_rooms(cb.nbrs(), rooms.room_id@, c, k - 1);
    if k > 0 {
        let x = cb.nbrs()[c]@[k - 1];
        if p.contains(r) {
            lemma_adjacent_rooms_in_range(cb, rooms, c, k - 1, r);
        } else {
            lemma_push_contains(p, rooms.room_id@[x as int], r);
            assert(r == rooms.room_id@[x as int]);
            assert(x < cb.cell_count);
        }
    }
}

/// The room distance of box cell `cell`: that of its room, or the least of
/// those of the rooms around it for a doorway; 0 when there is none.
pub open spec fn cell_room_distance(cb: &CompiledBoard, rooms: &RoomMap, dist: Seq<u16>, cell: int) -> int {
    if rooms.is_doorway@[cell] {
        least_of_rooms(dist, adjacent_rooms(cb.nbrs(), rooms.room_id@, cell, 4), adjacent_rooms(cb.nbrs(), rooms.room_id@, cell, 4).len() as int)
    } else if rooms.room_id@[cell] != NO_ROOM {
        if rooms.room_id@[cell] < dist.len() {
            dist[rooms.room_id@[cell] as int] as int
        } else {
            0
        }
    } else {
        0
    }
}

/// The least distance among the first `k` rooms of `rs` that have one, or 0
/// when none has.
pub open spec fn least_of_rooms(dist: Seq<u16>, rs: Seq<u16>, k: int) -> int
    decreases k,
{
    if k <= 0 {
        0
    } else {
        let p = least_of_rooms(dist, rs, k - 1);
        let r = rs[k - 1];
        if (r as int) < dist.len() {
            let d = dist[r as int] as int;
            if has_room_distance(dist, rs, k - 1) && p <= d {
                p
            } else {
                d
            }
        } else {
            p
        }
    }
}

/// Some of the first `k` rooms of `rs` has a distance.
pub open spec fn has_room_distance(dist: Seq<u16>, rs: Seq<u16>, k: int) -> bool {
    exists|i: int| 0 <= i < k && i < rs.len() && (#[trigger] rs[i] as int) < dist.len()
}

/// The boost of the first `k` boxes: the room distances of those not on a
/// goal of their label.
pub open spec fn boost_upto(cb: &CompiledBoard, rooms: &RoomMap, dist: Seq<u16>, boxes: Seq<(u16, u8)>, k: int) -> int
    decreases k,
{
    if k <= 0 {
        0
    } else {
        boost_upto(cb, rooms, dist, boxes, k - 1) + if cb.goal_at_cell(boxes[k - 1].0 as int) == Some(boxes[k - 1].1) {
            0
        } else {
            cell_room_distance(cb, rooms, dist, boxes[k - 1].0 as int)
        }
    }
}

proof fn lemma_least_bound(dist: Seq<u16>, rs: Seq<u16>, k: int)
    ensures
        0 <= least_of_rooms(dist, rs, k) <= u16::MAX,
    decreases k,
{
    if k > 0 {
        lemma_least_bound(dist, rs, k - 1);
    }
}

proof fn lemma_boost_bound(cb: &CompiledBoard, rooms: &RoomMap, dist: Seq<u16>, boxes: Seq<(u16, u8)>, k: int)
    requires
        0 <= k,
    ensures
        0 <= boost_upto(cb, rooms, dist, boxes, k) <= 65535 * k,
    decreases k,
{
    if k > 0 {
        lemma_boost_bound(cb, rooms, dist, boxes, k - 1);
        lemma_least_bound(
            dist,
            adjacent_rooms(cb.nbrs(), rooms.room_id@, boxes[k - 1].0 as int, 4),
            adjacent_rooms(cb.nbrs(), rooms.room_id@, boxes[k - 1].0 as int, 4).len() as int,
        );
    }
}

impl CorralOrdering {
    /// The room distances the ordering holds.
    pub closed spec fn dists(&self) -> Seq<u16> {
        self.room_goal_dist@
    }

    /// Computes every room's least number of hops to a goal room.
    pub fn build(cb: &CompiledBoard, rooms: &RoomMap) -> (o: CorralOrdering)
        requires
            cb.wf(),
            rooms_fit(cb, rooms),
        ensures
            o.dists().len() == rooms.room_count,
            nbrs_symmetric(cb.nbrs()) ==> goal_distances(cb, rooms, o.dists()),
    {
        CorralOrdering { room_goal_dist: compute_room_goal_distances(cb, rooms) }
    }

    /// The sum of the room distances of the boxes not on a goal of their
    /// label: lower means the boxes far from the goals have been moved.
    pub fn corral_boost(&self, cb: &CompiledBoard, rooms: &RoomMap, box_cells: &[(u16, u8)]) -> (boost: u32)
        requires
            cb.wf(),
            rooms_fit(cb, rooms),
            forall|i: int| 0 <= i < box_cells@.len() ==> (#[trigger] box_cells@[i]).0 < cb.cell_count,
            65535 * box_cells@.len() <= u32::MAX,
        ensures
            boost == boost_upto(cb, rooms, self.dists(), box_cells@, box_cells@.len() as int),
            boost <= 65535 * box_cells@.len(),
    {
        let mut boost: u32 = 0;
        let mut i: usize = 0;
        while i < box_cells.len()
            invariant
                cb.wf(),
                rooms_fit(cb, rooms),
                forall|q: int| 0 <= q < box_cells@.len() ==> (#[trigger] box_cells@[q]).0 < cb.cell_count,
                65535 * box_cells@.len() <= u32::MAX,
                i <= box_cells@.len(),
                boost == boost_upto(cb, rooms, self.dists(), box_cells@, i as int),
            decreases box_cells@.len() - i,
        {
            proof {
                lemma_boost_bound(cb, rooms, self.dists(), box_cells@, i as int);
                lemma_least_bound(
                    self.dists(),
                    adjacent_rooms(cb.nbrs(), rooms.room_id@, box_cells@[i as int].0 as int, 4),
                    adjacent_rooms(cb.nbrs(), rooms.room_id@, box_cells@[i as int].0 as int, 4).len() as int,
                );
                assert(65535 * i + 65535 <= 65535 * box_cells@.len()) by (nonlinear_arith)
                    requires
                        i < box_cells@.len(),
                ;
            }
            let (cell, label) = box_cells[i];
            if cb.goal_matches(cell, label) {
                i += 1;
                continue;
            }
            let room_dist: u32 = if rooms.is_doorway(cell) {
                self.doorway_min_room_dist(cb, rooms, cell)
            } else {
                match rooms.cell_room(cell) {
                    Some(rid) => {
                        if (rid as usize) < self.room_goal_dist.len() {
                            self.room_goal_dist[rid as usize] as u32
                        } else {
                            0
                        }
                    },
                    None => 0,
                }
            };
            boost = boost + room_dist;
            i += 1;
        }
        proof {
            lemma_boost_bound(cb, rooms, self.dists(), box_cells@, box_cells@.len() as int);
        }
        boost
    }

    /// The distance of room `room_id`, or `NO_DIST` beyond the rooms.
    pub fn room_distance(&self, room_id: u16) -> (d: u16)
        ensures
            d == if room_id < self.dists().len() {
                self.dists()[room_id as int]
            } else {
                NO_DIST
            },
    {
        if (room_id as usize) < self.room_goal_dist.len() {
            self.room_goal_dist[room_id as usize]
        } else {
            NO_DIST
        }
    }

    /// The least distance of the rooms around `doorway`, or 0 when none has
    /// one.
    fn doorway_min_room_dist(&self, cb: &CompiledBoard, rooms: &RoomMap, doorway: u16) -> (d: u32)
        requires
            cb.wf(),
            rooms_fit(cb, rooms),
            doorway < cb.cell_count,
        ensures
            d == least_of_rooms(
                self.dists(),
                adjacent_rooms(cb.nbrs(), rooms.room_id@, doorway as int, 4),
                adjacent_rooms(cb.nbrs(), rooms.room_id@, doorway as int, 4).len() as int,
            ),
    {
        let adj = rooms.rooms_adjacent_to_doorway(cb, doorway);
        let ghost rs = adj@;
        proof {
            lemma_adjacent_len(cb.nbrs(), rooms.room_id@, doorway as int, 4);
        }
        let mut best: u32 = 0;
        let mut found = false;
        let mut k: usize = 0;
        while k < adj.len()
            invariant
                rs == adj@,
                rs.len() <= 4,
                k <= rs.len(),
                found == has_room_distance(self.dists(), rs, k as int),
                best == least_of_rooms(self.dists(), rs, k as int),
            decreases rs.len() - k,
        {
            let r = adj[k];
            proof {
                lemma_least_bound(self.dists(), rs, k as int);
            }
            if (r as usize) < self.room_goal_dist.len() {
                let d = self.room_goal_dist[r as usize] as u32;
                if !(found && best <= d) {
                    best = d;
                }
                proof {
                    assert(has_room_distance(self.dists(), rs, k + 1)) by {
                        assert((rs[k as int] as int) < self.dists().len());
                    }
                }
                found = true;
            } else {
                proof {
                    assert(has_room_distance(self.dists(), rs, k + 1) == has_room_distance(self.dists(), rs, k as int)) by {
                        if has_room_distance(self.dists(), rs, k + 1) {
                            let i = choose|i: int| 0 <= i < k + 1 && i < rs.len() && (#[trigger] rs[i] as int) < self.dists().len();
                        }
                    }
                }
            }
            k += 1;
        }
        best
    }
}

/// A cell has at most four distinct neighbouring rooms.
proof fn lemma_adjacent_len(nb: Seq<[u16; 4]>, ids: Seq<u16>, c: int, k: int)
    requires
        0 <= k,
    ensures
        adjacent_rooms(nb, ids, c, k).len() <= k,
    decreases k,
{
    if k > 0 {
        lemma_adjacent_len(nb, ids, c, k - 1);
    }
}

} // verus!
