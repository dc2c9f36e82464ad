use vstd::prelude::*;

use crate::bfs::{in_queue, lemma_set_count_le, lemma_set_count_update, set_count};
use crate::compiled_board::{dir_of, direction_at, nbrs_ok, nbrs_symmetric, CompiledBoard, INVALID_CELL};
use crate::graph::{
    lemma_closed_reach, lemma_reachable_back, lemma_reachable_trans, lemma_reaches_self, lemma_reaches_step, link,
    path_of, reachable, reaches_in,
};
use crate::position::{spec_index, spec_opposite};

verus! {

broadcast use vstd::std_specs::vec::group_vec_axioms;

/// The room id of a cell that belongs to no room (a doorway).
pub const NO_ROOM: u16 = 65535;

/// Room and doorway decomposition of the board.
///
/// Doorways are the articulation points of the floor: the cells whose
/// removal parts two cells that were connected. Rooms are the connected
/// parts of the floor once the doorways are taken out, numbered in the order
/// of their least cell.
#[derive(Clone, Debug)]
pub struct RoomMap {
    pub room_id: Vec<u16>,
    pub is_doorway: Vec<bool>,
    pub room_count: u16,
    pub doorway_count: u16,
}

/// Cells `x` and `y` are neighbours and neither is a doorway.
pub open spec fn open_step(nb: Seq<[u16; 4]>, door: Seq<bool>, x: int, y: int) -> bool {
    exists|d: int|
        0 <= d < 4 && 0 <= x < nb.len() && #[trigger] nb[x]@[d] == y && y != INVALID_CELL && !door[x] && !door[y]
}

/// The graph of the floor without its doorways.
pub open spec fn open_steps(nb: Seq<[u16; 4]>, door: Seq<bool>) -> spec_fn(int, int) -> bool {
    |x: int, y: int| open_step(nb, door, x, y)
}

/// How many entries of `s` are set.
pub open spec fn count_true(s: Seq<bool>) -> nat
    decreases s.len(),
{
    if s.len() == 0 {
        0
    } else {
        count_true(s.drop_last()) + if s.last() {
            1nat
        } else {
            0nat
        }
    }
}

/// No cell before `c` has the room id of `c`.
pub open spec fn first_of_room(ids: Seq<u16>, c: int) -> bool {
    forall|x: int| 0 <= x < c ==> #[trigger] ids[x] != ids[c]
}

/// Room ids `ids` for doorway flags `door`: doorways have no room, every
/// other cell has one below `count`, and every room below `count` has a
/// cell.
pub open spec fn rooms_cover(door: Seq<bool>, ids: Seq<u16>, count: int) -> bool {
    &&& ids.len() == door.len()
    &&& forall|c: int| 0 <= c < ids.len() ==> (#[trigger] ids[c] == NO_ROOM <==> door[c])
    &&& forall|c: int| 0 <= c < ids.len() && !door[c] ==> #[trigger] ids[c] < count
    &&& forall|r: int| 0 <= r < count ==> #[trigger] room_used(ids, r, ids.len() as int)
}

/// Some cell below `limit` has room id `r`.
pub open spec fn room_used(ids: Seq<u16>, r: int, limit: int) -> bool {
    exists|c: int| 0 <= c < limit && #[trigger] ids[c] == r
}

/// The rooms are the connected parts of the floor without its doorways,
/// numbered in the order of their least cell.
pub open spec fn rooms_are_components(nb: Seq<[u16; 4]>, door: Seq<bool>, ids: Seq<u16>) -> bool {
    &&& forall|c: int, e: int|
        0 <= c < ids.len() && 0 <= e < ids.len() && !door[c] && !door[e] ==> (#[trigger] ids[c] == #[trigger] ids[e]
            <==> reachable(open_steps(nb, door), c, e))
    &&& forall|a: int, b: int|
        0 <= a < b < ids.len() && !door[a] && !door[b] && first_of_room(ids, a) && first_of_room(ids, b) ==> #[trigger] ids[a]
            < #[trigger] ids[b]
}

proof fn lemma_count_true_le(s: Seq<bool>)
    ensures
        count_true(s) <= s.len(),
    decreases s.len(),
{
    if s.len() > 0 {
        lemma_count_true_le(s.drop_last());
    }
}

/// With a symmetric neighbour table, the open graph goes both ways.
proof fn lemma_open_symmetric(nb: Seq<[u16; 4]>, door: Seq<bool>)
    requires
        nbrs_ok(nb, nb.len() as int),
        nbrs_symmetric(nb),
    ensures
        forall|x: int, y: int| #[trigger] (open_steps(nb, door))(x, y) ==> (open_steps(nb, door))(y, x),
{
    assert forall|x: int, y: int| #[trigger] (open_steps(nb, door))(x, y) implies (open_steps(nb, door))(y, x) by {
        let d = choose|d: int|
            0 <= d < 4 && 0 <= x < nb.len() && #[trigger] nb[x]@[d] == y && y != INVALID_CELL && !door[x] && !door[y];
        let dir = dir_of(d);
        assert(spec_index(dir) == d);
        assert(nb[nb[x]@[spec_index(dir)] as int]@[spec_index(spec_opposite(dir))] == x);
        let e = spec_index(spec_opposite(dir));
        assert(0 <= e < 4 && 0 <= y < nb.len() && nb[y]@[e] == x && x != INVALID_CELL && !door[y] && !door[x]);
    }
}

/// Cells reached in the open graph from a cell that is no doorway are no
/// doorways.
proof fn lemma_open_reach_not_door(nb: Seq<[u16; 4]>, door: Seq<bool>, a: int, b: int)
    requires
        !door[a],
        reachable(open_steps(nb, door), a, b),
    ensures
        !door[b],
{
    let inside = |x: int| !door[x];
    assert forall|x: int, y: int| inside(x) && #[trigger] (open_steps(nb, door))(x, y) implies inside(y) by {}
    lemma_closed_reach(open_steps(nb, door), inside, a, b);
}

/// Cells reached in the open graph are cells.
proof fn lemma_open_reach_cell(nb: Seq<[u16; 4]>, door: Seq<bool>, a: int, b: int)
    requires
        nbrs_ok(nb, nb.len() as int),
        0 <= a < nb.len(),
        reachable(open_steps(nb, door), a, b),
    ensures
        0 <= b < nb.len(),
{
    let inside = |x: int| 0 <= x < nb.len();
    assert forall|x: int, y: int| inside(x) && #[trigger] (open_steps(nb, door))(x, y) implies inside(y) by {
        let d = choose|d: int|
            0 <= d < 4 && 0 <= x < nb.len() && #[trigger] nb[x]@[d] == y && y != INVALID_CELL && !door[x] && !door[y];
    }
    lemma_closed_reach(open_steps(nb, door), inside, a, b);
}

/// The cells with a room are closed under the open graph.
pub open spec fn rooms_closed(nb: Seq<[u16; 4]>, door: Seq<bool>, ids: Seq<u16>) -> bool {
    forall|x: int, y: int|
        0 <= x < ids.len() && ids[x] != NO_ROOM && #[trigger] open_step(nb, door, x, y) ==> ids[y] != NO_ROOM
}

/// Filling the cells reached from `start` keeps the numbering facts that
/// `analyze` carries from cell to cell.
proof fn lemma_fill_keeps(
    nb: Seq<[u16; 4]>,
    door: Seq<bool>,
    before: Seq<u16>,
    after: Seq<u16>,
    start: int,
    cur: int,
)
    requires
        nbrs_ok(nb, nb.len() as int),
        door.len() == nb.len(),
        before.len() == nb.len(),
        after.len() == nb.len(),
        0 <= start < nb.len(),
        !door[start],
        before[start] == NO_ROOM,
        0 <= cur < NO_ROOM,
        forall|c: int| 0 <= c < nb.len() && before[c] != NO_ROOM ==> #[trigger] before[c] < cur,
        forall|c: int| 0 <= c < start && !door[c] ==> #[trigger] before[c] != NO_ROOM,
        forall|c: int| 0 <= c < nb.len() && door[c] ==> #[trigger] before[c] == NO_ROOM,
        rooms_closed(nb, door, before),
        forall|c: int| 0 <= c < nb.len() && before[c] != NO_ROOM ==> #[trigger] room_used(before, before[c] as int, start),
        forall|c: int|
            0 <= c < nb.len() ==> #[trigger] after[c] == if before[c] == NO_ROOM && reachable(open_steps(nb, door), start, c) {
                cur as u16
            } else {
                before[c]
            },
        nbrs_symmetric(nb) ==> forall|c: int, e: int|
            0 <= c < nb.len() && 0 <= e < nb.len() && before[c] != NO_ROOM && !door[e] ==> (#[trigger] before[c]
                == #[trigger] before[e] <==> reachable(open_steps(nb, door), c, e)),
        nbrs_symmetric(nb) ==> forall|a: int, b: int|
            0 <= a < b < nb.len() && before[a] != NO_ROOM && before[b] != NO_ROOM && first_of_room(before, a) && first_of_room(
                before,
                b,
            ) ==> #[trigger] before[a] < #[trigger] before[b],
    ensures
        after[start] == cur,
        forall|c: int| 0 <= c < nb.len() && door[c] ==> #[trigger] after[c] == NO_ROOM,
        forall|c: int| 0 <= c < nb.len() && after[c] != NO_ROOM ==> #[trigger] after[c] <= cur,
        rooms_closed(nb, door, after),
        forall|c: int| 0 <= c < nb.len() && after[c] != NO_ROOM ==> #[trigger] room_used(after, after[c] as int, start + 1),
        forall|c: int| 0 <= c < nb.len() && before[c] != NO_ROOM ==> #[trigger] after[c] == before[c],
        nbrs_symmetric(nb) ==> forall|c: int, e: int|
            0 <= c < nb.len() && 0 <= e < nb.len() && after[c] != NO_ROOM && !door[e] ==> (#[trigger] after[c] == #[trigger] after[e]
                <==> reachable(open_steps(nb, door), c, e)),
        nbrs_symmetric(nb) ==> forall|a: int, b: int|
            0 <= a < b < nb.len() && after[a] != NO_ROOM && after[b] != NO_ROOM && first_of_room(after, a) && first_of_room(
                after,
                b,
            ) ==> #[trigger] after[a] < #[trigger] after[b],
{
    let n = nb.len() as int;
    let step = open_steps(nb, door);
    let assigned = |x: int| 0 <= x < n && before[x] != NO_ROOM;
    assert forall|x: int, y: int| assigned(x) && #[trigger] step(x, y) implies assigned(y) by {
        let d = choose|d: int|
            0 <= d < 4 && 0 <= x < nb.len() && #[trigger] nb[x]@[d] == y && y != INVALID_CELL && !door[x] && !door[y];
        assert(open_step(nb, door, x, y));
    }
    lemma_reaches_self(step, start);
    assert(reachable(step, start, start));
    // Cells reached from the start are cells, no doorways, and not before it.
    assert forall|c: int| #[trigger] reachable(step, start, c) implies 0 <= c < n && !door[c] by {
        lemma_open_reach_cell(nb, door, start, c);
        lemma_open_reach_not_door(nb, door, start, c);
    }
    assert forall|c: int| 0 <= c < n && after[c] != NO_ROOM && before[c] == NO_ROOM implies c >= start && after[c] == cur by {
        if c < start {
            assert(before[c] != NO_ROOM);
        }
    }
    assert forall|c: int| 0 <= c < n && door[c] implies #[trigger] after[c] == NO_ROOM by {}
    assert forall|x: int, y: int|
        0 <= x < after.len() && after[x] != NO_ROOM && #[trigger] open_step(nb, door, x, y) implies after[y] != NO_ROOM by {
        assert(step(x, y));
        if before[x] != NO_ROOM {
            assert(before[y] != NO_ROOM);
        } else {
            assert(reachable(step, start, x));
            lemma_reaches_step(step, start, x, y, choose|k: nat| #[trigger] reaches_in(step, start, x, k));
            assert(reachable(step, start, y));
        }
    }
    assert forall|c: int| 0 <= c < n && after[c] != NO_ROOM implies #[trigger] room_used(after, after[c] as int, start + 1) by {
        if before[c] != NO_ROOM {
            assert(room_used(before, before[c] as int, start));
            let x = choose|x: int| 0 <= x < start && #[trigger] before[x] == before[c];
            assert(after[x] == after[c]);
        } else {
            assert(after[start] == after[c]);
        }
    }
    if nbrs_symmetric(nb) {
        lemma_open_symmetric(nb, door);
        assert forall|c: int, e: int|
            0 <= c < n && 0 <= e < n && after[c] != NO_ROOM && !door[e] implies (#[trigger] after[c] == #[trigger] after[e]
            <==> reachable(step, c, e)) by {
            let c_new = before[c] == NO_ROOM;
            let e_new = before[e] == NO_ROOM && reachable(step, start, e);
            if c_new {
                assert(reachable(step, start, c));
                lemma_reachable_back(step, start, c);
                if reachable(step, c, e) {
                    lemma_reachable_trans(step, start, c, e);
                    if before[e] != NO_ROOM {
                        lemma_reachable_back(step, start, e);
                        lemma_closed_reach(step, assigned, e, start);
                    }
                }
                if e_new {
                    lemma_reachable_trans(step, c, start, e);
                }
            } else {
                if reachable(step, c, e) {
                    lemma_closed_reach(step, assigned, c, e);
                }
            }
        }
        assert forall|a: int, b: int|
            0 <= a < b < n && after[a] != NO_ROOM && after[b] != NO_ROOM && first_of_room(after, a) && first_of_room(after, b)
                implies #[trigger] after[a] < #[trigger] after[b] by {
            if before[a] != NO_ROOM && before[b] != NO_ROOM {
                assert forall|x: int| 0 <= x < a implies #[trigger] before[x] != before[a] by {
                    assert(after[x] != after[a]);
                }
                assert forall|x: int| 0 <= x < b implies #[trigger] before[x] != before[b] by {
                    assert(after[x] != after[b]);
                }
            } else if before[a] == NO_ROOM && before[b] != NO_ROOM {
                if a > start {
                    assert(after[start] == after[a]);
                }
                assert(room_used(before, before[b] as int, start));
                let x = choose|x: int| 0 <= x < start && #[trigger] before[x] == before[b];
                assert(after[x] == after[b]);
            } else if before[a] == NO_ROOM && before[b] == NO_ROOM {
                assert(after[a] == after[b]);
            }
        }
    }
}

/// Gives every cell reached from `start` over the open graph, that had no
/// room, the room `room`; stops at cells that have one. The cells with a
/// room must be closed under the open graph.
fn flood_fill(cb: &CompiledBoard, start: u16, room: u16, is_doorway: &Vec<bool>, room_id: &mut Vec<u16>)
    requires
        cb.wf(),
        start < cb.cell_count,
        room < NO_ROOM,
        is_doorway@.len() == cb.cell_count,
        old(room_id)@.len() == cb.cell_count,
        !is_doorway@[start as int],
        old(room_id)@[start as int] == NO_ROOM,
        rooms_closed(cb.nbrs(), is_doorway@, old(room_id)@),
        forall|c: int| 0 <= c < cb.cell_count && old(room_id)@[c] != NO_ROOM ==> #[trigger] old(room_id)@[c] < room,
    ensures
        final(room_id)@.len() == cb.cell_count,
        forall|c: int|
            0 <= c < cb.cell_count ==> #[trigger] final(room_id)@[c] == if old(room_id)@[c] == NO_ROOM && reachable(
                open_steps(cb.nbrs(), is_doorway@),
                start as int,
                c,
            ) {
                room
            } else {
                old(room_id)@[c]
            },
{
    proof {
        cb.lemma_wf();
    }
    let ghost nb = cb.nbrs();
    let ghost door = is_doorway@;
    let ghost n = cb.cell_count as int;
    let ghost step = open_steps(nb, door);
    let ghost ids0 = room_id@;
    proof {
        lemma_set_count_le(room_id@);
        lemma_set_count_update(room_id@, start as int, room);
        lemma_reaches_self(step, start as int);
    }
    room_id.set(start as usize, room);
    let mut stack: Vec<u16> = Vec::new();
    stack.push(start);
    proof {
        lemma_set_count_le(room_id@);
        assert(stack@[0] == start);
        assert(in_queue(stack@, start as int));
        assert forall|x: int| 0 <= x < n && x != start implies #[trigger] room_id@[x] == ids0[x] by {}
    }
    loop
        invariant
            cb.wf(),
            nb == cb.nbrs(),
            door == is_doorway@,
            n == cb.cell_count,
            step == open_steps(nb, door),
            nbrs_ok(nb, n),
            door.len() == n,
            ids0.len() == n,
            room_id@.len() == n,
            room < NO_ROOM,
            start < n,
            !door[start as int],
            rooms_closed(nb, door, ids0),
            forall|c: int| 0 <= c < n && ids0[c] != NO_ROOM ==> #[trigger] ids0[c] < room,
            forall|c: int|
                0 <= c < n ==> #[trigger] room_id@[c] == ids0[c] || (room_id@[c] == room && ids0[c] == NO_ROOM && reachable(
                    step,
                    start as int,
                    c,
                )),
            room_id@[start as int] == room,
            forall|i: int| 0 <= i < stack@.len() ==> (#[trigger] stack@[i]) < n && room_id@[stack@[i] as int] == room,
            forall|x: int, y: int|
                0 <= x < n && room_id@[x] == room && !in_queue(stack@, x) && #[trigger] open_step(nb, door, x, y)
                    ==> room_id@[y] != NO_ROOM,
            set_count(room_id@) <= n,
        ensures
            stack@.len() == 0,
        decreases 2 * (n - set_count(room_id@)) + stack@.len(),
    {
        let ghost measure = 2 * (n - set_count(room_id@)) + stack@.len();
        let ghost s0 = stack@;
        match stack.pop() {
            None => {
                break;
            },
            Some(cell) => {
                proof {
                    assert(s0.last() == cell);
                    assert(stack@ =~= s0.drop_last());
                    assert forall|x: int| x != cell && !#[trigger] in_queue(stack@, x) implies !in_queue(s0, x) by {
                        if in_queue(s0, x) {
                            let i = choose|i: int| 0 <= i < s0.len() && s0[i] == x;
                            assert(i < s0.len() - 1);
                            assert(stack@[i] == x);
                        }
                    }
                }
                let mut k: usize = 0;
                while k < 4
                    invariant
                        cb.wf(),
                        nb == cb.nbrs(),
                        door == is_doorway@,
                        n == cb.cell_count,
                        step == open_steps(nb, door),
                        nbrs_ok(nb, n),
                        door.len() == n,
                        ids0.len() == n,
                        room_id@.len() == n,
                        room < NO_ROOM,
                        start < n,
                        !door[start as int],
                        rooms_closed(nb, door, ids0),
                        forall|c: int| 0 <= c < n && ids0[c] != NO_ROOM ==> #[trigger] ids0[c] < room,
                        forall|c: int|
                            0 <= c < n ==> #[trigger] room_id@[c] == ids0[c] || (room_id@[c] == room && ids0[c] == NO_ROOM
                                && reachable(step, start as int, c)),
                        room_id@[start as int] == room,
                        cell < n,
                        room_id@[cell as int] == room,
                        k <= 4,
                        forall|i: int| 0 <= i < stack@.len() ==> (#[trigger] stack@[i]) < n && room_id@[stack@[i] as int] == room,
                        forall|x: int, y: int|
                            0 <= x < n && x != cell && room_id@[x] == room && !in_queue(stack@, x) && #[trigger] open_step(
                                nb,
                                door,
                                x,
                                y,
                            ) ==> room_id@[y] != NO_ROOM,
                        forall|j: int|
                            0 <= j < k && (#[trigger] nb[cell as int]@[j]) != INVALID_CELL && !door[nb[cell as int]@[j] as int]
                                ==> room_id@[nb[cell as int]@[j] as int] != NO_ROOM,
                        set_count(room_id@) <= n,
                        2 * (n - set_count(room_id@)) + stack@.len() < measure,
                    decreases 4 - k,
                {
                    let dir = direction_at(k);
                    let next = cb.neighbor(cell, dir);
                    if next == INVALID_CELL {
                        k += 1;
                        continue;
                    }
                    if is_doorway[next as usize] || room_id[next as usize] != NO_ROOM {
                        k += 1;
                        continue;
                    }
                    let ghost before = room_id@;
                    proof {
                        lemma_set_count_update(room_id@, next as int, room);
                        lemma_set_count_le(room_id@.update(next as int, room));
                        assert(!door[cell as int]) by {
                            if room_id@[cell as int] != ids0[cell as int] {
                                lemma_open_reach_not_door(nb, door, start as int, cell as int);
                            } else {
                                assert(ids0[cell as int] == room);
                            }
                        }
                        assert(open_step(nb, door, cell as int, next as int));
                        assert(step(cell as int, next as int));
                        assert(ids0[cell as int] == NO_ROOM);
                        let kk = choose|kk: nat| #[trigger] reaches_in(step, start as int, cell as int, kk);
                        lemma_reaches_step(step, start as int, cell as int, next as int, kk);
                    }
                    room_id.set(next as usize, room);
                    let ghost sb = stack@;
                    stack.push(next);
                    proof {
                        assert forall|c: int|
                            0 <= c < n implies #[trigger] room_id@[c] == ids0[c] || (room_id@[c] == room && ids0[c] == NO_ROOM
                                && reachable(step, start as int, c)) by {
                            if c != next {
                                assert(room_id@[c] == before[c]);
                            }
                        }
                        assert forall|i: int| 0 <= i < stack@.len() implies (#[trigger] stack@[i]) < n && room_id@[stack@[i] as int]
                            == room by {
                            if i < stack@.len() - 1 {
                                assert(stack@[i] == sb[i]);
                            }
                        }
                        assert forall|x: int, y: int|
                            0 <= x < n && x != cell && room_id@[x] == room && !in_queue(stack@, x) && #[trigger] open_step(
                                nb,
                                door,
                                x,
                                y,
                            ) implies room_id@[y] != NO_ROOM by {
                            assert(x != next) by {
                                if x == next {
                                    assert(stack@[stack@.len() - 1] == next);
                                }
                            }
                            assert(!in_queue(sb, x)) by {
                                if in_queue(sb, x) {
                                    let i = choose|i: int| 0 <= i < sb.len() && sb[i] == x;
                                    assert(stack@[i] == x);
                                }
                            }
                            assert(before[y] != NO_ROOM);
                        }
                    }
                    k += 1;
                }
                proof {
                    assert forall|x: int, y: int|
                        0 <= x < n && room_id@[x] == room && !in_queue(stack@, x) && #[trigger] open_step(nb, door, x, y)
                            implies room_id@[y] != NO_ROOM by {
                        if x == cell {
                            let j = choose|j: int|
                                0 <= j < 4 && 0 <= x < nb.len() && #[trigger] nb[x]@[j] == y && y != INVALID_CELL && !door[x]
                                    && !door[y];
                            assert(nb[cell as int]@[j] == y);
                        }
                    }
                }
            },
        }
    }
    proof {
        let inside = |x: int| 0 <= x < n && room_id@[x] != NO_ROOM;
        assert forall|x: int, y: int| inside(x) && #[trigger] step(x, y) implies inside(y) by {
            assert(open_step(nb, door, x, y));
            let d = choose|d: int|
                0 <= d < 4 && 0 <= x < nb.len() && #[trigger] nb[x]@[d] == y && y != INVALID_CELL && !door[x] && !door[y];
            if room_id@[x] == room {
                assert(!in_queue(stack@, x));
            } else {
                assert(ids0[x] != NO_ROOM);
                assert(ids0[y] != NO_ROOM);
                assert(room_id@[y] == ids0[y] || room_id@[y] == room);
            }
        }
        assert forall|c: int|
            0 <= c < n implies #[trigger] room_id@[c] == if ids0[c] == NO_ROOM && reachable(step, start as int, c) {
                room
            } else {
                ids0[c]
            } by {
            if ids0[c] == NO_ROOM && reachable(step, start as int, c) {
                assert(inside(start as int));
                lemma_closed_reach(step, inside, start as int, c);
            }
        }
    }
}

impl RoomMap {
    /// Finds the doorways, then numbers the rooms: every cell that is no
    /// doorway and has no room yet starts a new room, filled out over the
    /// neighbours that are no doorways. A cell is a doorway when, once it is
    /// taken out, one of its other neighbours can no longer be reached from
    /// the first. On a board whose neighbour relation is symmetric, the
    /// doorways are exactly the articulation points of the floor, and the
    /// rooms are the connected parts of the floor without its doorways,
    /// numbered in the order of their least cell.
    pub fn analyze(cb: &CompiledBoard) -> (m: RoomMap)
        requires
            cb.wf(),
        ensures
            m.is_doorway@.len() == cb.cell_count,
            forall|c: int| 0 <= c < cb.cell_count ==> #[trigger] m.is_doorway@[c] == parts_neighbours(cb.nbrs(), c),
            nbrs_symmetric(cb.nbrs()) ==> forall|c: int|
                0 <= c < cb.cell_count ==> (#[trigger] m.is_doorway@[c] <==> cuts_floor(cb.nbrs(), c)),
            m.doorway_count == count_true(m.is_doorway@),
            rooms_cover(m.is_doorway@, m.room_id@, m.room_count as int),
            nbrs_symmetric(cb.nbrs()) ==> rooms_are_components(cb.nbrs(), m.is_doorway@, m.room_id@),
    {
        proof {
            cb.lemma_wf();
        }
        let ghost nb = cb.nbrs();
        let n = cb.cell_count;
        let is_doorway = find_articulation_points(cb);
        let ghost door = is_doorway@;
        proof {
            if nbrs_symmetric(nb) {
                assert forall|c: int| 0 <= c < n implies (#[trigger] door[c] <==> cuts_floor(nb, c)) by {
                    lemma_parts_iff_cuts(nb, c);
                }
            }
        }
        let mut doorway_count: u16 = 0;
        let mut k: usize = 0;
        while k < is_doorway.len()
            invariant
                is_doorway@.len() == n,
                n <= INVALID_CELL,
                k <= n,
                doorway_count == count_true(is_doorway@.take(k as int)),
            decreases n - k,
        {
            proof {
                assert(is_doorway@.take(k + 1).drop_last() =~= is_doorway@.take(k as int));
                lemma_count_true_le(is_doorway@.take(k as int));
            }
            if is_doorway[k] {
                doorway_count = doorway_count + 1;
            }
            k += 1;
        }
        proof {
            assert(is_doorway@.take(n as int) =~= is_doorway@);
        }
        let ghost step = open_steps(nb, door);
        let ghost sym = nbrs_symmetric(nb);
        let mut room_id: Vec<u16> = vec![NO_ROOM; n as usize];
        let mut current_room: u16 = 0;
        let mut cell: u16 = 0;
        while cell < n
            invariant
                cb.wf(),
                nb == cb.nbrs(),
                n == cb.cell_count,
                nbrs_ok(nb, n as int),
                door == is_doorway@,
                door.len() == n,
                step == open_steps(nb, door),
                sym == nbrs_symmetric(nb),
                cell <= n,
                room_id@.len() == n,
                current_room <= cell,
                forall|c: int| 0 <= c < n && door[c] ==> #[trigger] room_id@[c] == NO_ROOM,
                forall|c: int| 0 <= c < cell && !door[c] ==> #[trigger] room_id@[c] != NO_ROOM,
                forall|c: int| 0 <= c < n && room_id@[c] != NO_ROOM ==> #[trigger] room_id@[c] < current_room,
                rooms_closed(nb, door, room_id@),
                forall|r: int| 0 <= r < current_room ==> #[trigger] room_used(room_id@, r, cell as int),
                forall|c: int| 0 <= c < n && room_id@[c] != NO_ROOM ==> #[trigger] room_used(room_id@, room_id@[c] as int, cell as int),
                sym ==> forall|c: int, e: int|
                    0 <= c < n && 0 <= e < n && room_id@[c] != NO_ROOM && !door[e] ==> (#[trigger] room_id@[c]
                        == #[trigger] room_id@[e] <==> reachable(step, c, e)),
                sym ==> forall|a: int, b: int|
                    0 <= a < b < n && room_id@[a] != NO_ROOM && room_id@[b] != NO_ROOM && first_of_room(room_id@, a)
                        && first_of_room(room_id@, b) ==> #[trigger] room_id@[a] < #[trigger] room_id@[b],
            decreases n - cell,
        {
            if room_id[cell as usize] != NO_ROOM || is_doorway[cell as usize] {
                proof {
                    assert forall|r: int| 0 <= r < current_room implies #[trigger] room_used(room_id@, r, cell + 1) by {
                        assert(room_used(room_id@, r, cell as int));
                    }
                    assert forall|c: int| 0 <= c < n && room_id@[c] != NO_ROOM implies #[trigger] room_used(
                        room_id@,
                        room_id@[c] as int,
                        cell + 1,
                    ) by {
                        assert(room_used(room_id@, room_id@[c] as int, cell as int));
                    }
                }
                cell += 1;
                continue;
            }
            let ghost before = room_id@;
            flood_fill(cb, cell, current_room, &is_doorway, &mut room_id);
            proof {
                lemma_fill_keeps(nb, door, before, room_id@, cell as int, current_room as int);
                assert forall|r: int| 0 <= r < current_room + 1 implies #[trigger] room_used(room_id@, r, cell + 1) by {
                    if r < current_room {
                        assert(room_used(before, r, cell as int));
                        let c = choose|c: int| 0 <= c < cell && #[trigger] before[c] == r;
                        assert(room_id@[c] == r);
                    } else {
                        assert(room_id@[cell as int] == r);
                    }
                }
            }
            current_room = current_room + 1;
            cell += 1;
        }
        RoomMap { room_id, is_doorway, room_count: current_room, doorway_count }
    }

    /// The room of `cell`, or `None` for a doorway.
    pub fn cell_room(&self, cell: u16) -> (r: Option<u16>)
        requires
            cell < self.room_id@.len(),
        ensures
            r == if self.room_id@[cell as int] == NO_ROOM {
                None
            } else {
                Some(self.room_id@[cell as int])
            },
    {
        let id = self.room_id[cell as usize];
        if id == NO_ROOM {
            None
        } else {
            Some(id)
        }
    }

    /// Whether `cell` is a doorway.
    pub fn is_doorway(&self, cell: u16) -> (b: bool)
        requires
            cell < self.is_doorway@.len(),
        ensures
            b == self.is_doorway@[cell as int],
    {
        self.is_doorway[cell as usize]
    }

    /// The distinct rooms of the neighbours of `doorway`, in the order of the
    /// directions up, down, left, right.
    pub fn rooms_adjacent_to_doorway(&self, cb: &CompiledBoard, doorway: u16) -> (rooms: Vec<u16>)
        requires
            cb.wf(),
            doorway < cb.cell_count,
            self.room_id@.len() == cb.cell_count,
        ensures
            rooms@ == adjacent_rooms(cb.nbrs(), self.room_id@, doorway as int, 4),
    {
        proof {
            cb.lemma_wf();
        }
        let mut rooms: Vec<u16> = Vec::new();
        let mut k: usize = 0;
        while k < 4
            invariant
                cb.wf(),
                doorway < cb.cell_count,
                self.room_id@.len() == cb.cell_count,
                nbrs_ok(cb.nbrs(), cb.cell_count as int),
                k <= 4,
                rooms@ == adjacent_rooms(cb.nbrs(), self.room_id@, doorway as int, k as int),
            decreases 4 - k,
        {
            let dir = direction_at(k);
            let n = cb.neighbor(doorway, dir);
            if n != INVALID_CELL {
                match self.cell_room(n) {
                    Some(room) => {
                        if !contains_room(&rooms, room) {
                            rooms.push(room);
                        }
                    },
                    None => {},
                }
            }
            k += 1;
        }
        rooms
    }
}

/// The distinct rooms of the neighbours of `cell` in the first `k`
/// directions, in order.
pub open spec fn adjacent_rooms(nb: Seq<[u16; 4]>, ids: Seq<u16>, cell: int, k: int) -> Seq<u16>
    decreases k,
{
    if k <= 0 {
        seq![]
    } else {
        let p = adjacent_rooms(nb, ids, cell, k - 1);
        let x = nb[cell]@[k - 1];
        if x != INVALID_CELL && ids[x as int] != NO_ROOM && !p.contains(ids[x as int]) {
            p.push(ids[x as int])
        } else {
            p
        }
    }
}

/// Whether `room` is among `rooms`.
pub fn contains_room(rooms: &Vec<u16>, room: u16) -> (b: bool)
    ensures
        b == rooms@.contains(room),
{
    let mut i: usize = 0;
    while i < rooms.len()
        invariant
            i <= rooms@.len(),
            forall|k: int| 0 <= k < i ==> rooms@[k] != room,
        decreases rooms@.len() - i,
    {
        if rooms[i] == room {
            proof {
                assert(rooms@[i as int] == room);
            }
            return true;
        }
        i += 1;
    }
    false
}

/// The floor graph: a step from every cell to each of its neighbours.
pub open spec fn floor_steps(nb: Seq<[u16; 4]>) -> spec_fn(int, int) -> bool {
    open_steps(nb, Seq::new(nb.len(), |i: int| false))
}

/// Doorway flags for `n` cells that mark cell `c` alone.
pub open spec fn only_cell(n: nat, c: int) -> Seq<bool> {
    Seq::new(n, |i: int| i == c)
}

/// The floor graph with cell `c` taken out.
pub open spec fn steps_without(nb: Seq<[u16; 4]>, c: int) -> spec_fn(int, int) -> bool {
    open_steps(nb, only_cell(nb.len(), c))
}

/// Taking cell `c` off the floor parts two other cells that were connected:
/// `c` is an articulation point of the floor graph.
pub open spec fn cuts_floor(nb: Seq<[u16; 4]>, c: int) -> bool {
    exists|x: int, y: int|
        #![trigger reachable(floor_steps(nb), x, y)]
        0 <= x < nb.len() && 0 <= y < nb.len() && x != c && y != c && reachable(floor_steps(nb), x, y)
            && !reachable(steps_without(nb, c), x, y)
}

/// Direction `d` of cell `c` leads to another floor cell.
pub open spec fn other_nbr(nb: Seq<[u16; 4]>, c: int, d: int) -> bool {
    0 <= d < 4 && nb[c]@[d] != INVALID_CELL && nb[c]@[d] != c
}

/// The first direction of cell `c` that leads to another floor cell (4: none).
pub open spec fn first_other(nb: Seq<[u16; 4]>, c: int) -> int {
    if other_nbr(nb, c, 0) {
        0
    } else if other_nbr(nb, c, 1) {
        1
    } else if other_nbr(nb, c, 2) {
        2
    } else if other_nbr(nb, c, 3) {
        3
    } else {
        4
    }
}

/// Once cell `c` is taken out, some other neighbour of `c` can no longer be
/// reached from its first one.
pub open spec fn parts_neighbours(nb: Seq<[u16; 4]>, c: int) -> bool {
    let f = first_other(nb, c);
    f < 4 && exists|d: int|
        #[trigger] other_nbr(nb, c, d) && !reachable(steps_without(nb, c), nb[c]@[f] as int, nb[c]@[d] as int)
}

/// Whether taking `cell` out parts its neighbours: a fill from its first
/// other neighbour over the floor without `cell`, then a look at the others.
fn parts_at(cb: &CompiledBoard, cell: u16) -> (b: bool)
    requires
        cb.wf(),
        cell < cb.cell_count,
    ensures
        b == parts_neighbours(cb.nbrs(), cell as int),
{
    proof {
        cb.lemma_wf();
    }
    let ghost nb = cb.nbrs();
    let ghost c = cell as int;
    let n = cb.cell_count;
    let mut first: usize = 4;
    let mut k: usize = 0;
    while k < 4
        invariant
            cb.wf(),
            nb == cb.nbrs(),
            c == cell,
            cell < cb.cell_count,
            k <= 4,
            first == 4 ==> forall|d: int| 0 <= d < k ==> !#[trigger] other_nbr(nb, c, d),
            first < 4 ==> first < k && other_nbr(nb, c, first as int) && forall|d: int|
                0 <= d < first ==> !#[trigger] other_nbr(nb, c, d),
            first <= 4,
        decreases 4 - k,
    {
        let v = cb.neighbor(cell, direction_at(k));
        if first == 4 && v != INVALID_CELL && v != cell {
            first = k;
        }
        k += 1;
    }
    proof {
        assert(first as int == first_other(nb, c)) by {
            if first == 4 {
                assert(!other_nbr(nb, c, 0) && !other_nbr(nb, c, 1) && !other_nbr(nb, c, 2) && !other_nbr(nb, c, 3));
            } else {
                assert(forall|d: int| 0 <= d < first ==> !#[trigger] other_nbr(nb, c, d));
            }
        }
    }
    if first == 4 {
        return false;
    }
    let start = cb.neighbor(cell, direction_at(first));
    let mut door: Vec<bool> = vec![false; n as usize];
    door.set(cell as usize, true);
    proof {
        assert(door@ =~= only_cell(nb.len(), c));
    }
    let mut ids: Vec<u16> = vec![NO_ROOM; n as usize];
    let ghost ids0 = ids@;
    flood_fill(cb, start, 0, &door, &mut ids);
    let ghost gs = steps_without(nb, c);
    let ghost a = start as int;
    proof {
        assert forall|x: int| 0 <= x < n implies (#[trigger] ids@[x] == NO_ROOM <==> !reachable(gs, a, x)) by {
            assert(ids0[x] == NO_ROOM);
        }
    }
    let mut d: usize = 0;
    while d < 4
        invariant
            cb.wf(),
            nb == cb.nbrs(),
            c == cell,
            cell < cb.cell_count,
            nbrs_ok(nb, n as int),
            n == cb.cell_count,
            ids@.len() == n,
            gs == steps_without(nb, c),
            gs == open_steps(nb, door@),
            a == nb[c]@[first_other(nb, c)] as int,
            first_other(nb, c) < 4,
            forall|x: int| 0 <= x < n ==> (#[trigger] ids@[x] == NO_ROOM <==> !reachable(gs, a, x)),
            forall|e: int| 0 <= e < d && #[trigger] other_nbr(nb, c, e) ==> reachable(gs, a, nb[c]@[e] as int),
            d <= 4,
        decreases 4 - d,
    {
        let v = cb.neighbor(cell, direction_at(d));
        if v != INVALID_CELL && v != cell && ids[v as usize] == NO_ROOM {
            proof {
                assert(other_nbr(nb, c, d as int));
            }
            return true;
        }
        d += 1;
    }
    false
}

/// Marks the articulation points of the floor graph: the cells whose removal
/// parts two of their neighbours.
fn find_articulation_points(cb: &CompiledBoard) -> (is_ap: Vec<bool>)
    requires
        cb.wf(),
    ensures
        is_ap@.len() == cb.cell_count,
        forall|c: int| 0 <= c < cb.cell_count ==> #[trigger] is_ap@[c] == parts_neighbours(cb.nbrs(), c),
{
    proof {
        cb.lemma_wf();
    }
    let mut is_ap: Vec<bool> = Vec::new();
    let mut cell: u16 = 0;
    while cell < cb.cell_count
        invariant
            cb.wf(),
            cb.cell_count <= INVALID_CELL,
            cell <= cb.cell_count,
            is_ap@.len() == cell,
            forall|c: int| 0 <= c < cell ==> #[trigger] is_ap@[c] == parts_neighbours(cb.nbrs(), c),
        decreases cb.cell_count - cell,
    {
        let b = parts_at(cb, cell);
        is_ap.push(b);
        cell += 1;
    }
    is_ap
}

/// A floor step between two cells other than `c` stays on the floor
/// without `c`.
proof fn lemma_step_without(nb: Seq<[u16; 4]>, c: int, x: int, y: int)
    requires
        nbrs_ok(nb, nb.len() as int),
        (floor_steps(nb))(x, y),
        x != c,
        y != c,
    ensures
        (steps_without(nb, c))(x, y),
{
    let d = choose|d: int|
        0 <= d < 4 && 0 <= x < nb.len() && #[trigger] nb[x]@[d] == y && y != INVALID_CELL && !Seq::new(
            nb.len(),
            |i: int| false,
        )[x] && !Seq::new(nb.len(), |i: int| false)[y];
    assert(0 <= y < nb.len());
    assert(0 <= d < 4 && 0 <= x < nb.len() && nb[x]@[d] == y && y != INVALID_CELL && !only_cell(nb.len(), c)[x]
        && !only_cell(nb.len(), c)[y]);
}

/// A floor path from `x`, which is not `c`, either keeps off `c` all the way
/// to its end, or keeps off it up to a cell with a step onto `c`.
proof fn lemma_enter(nb: Seq<[u16; 4]>, c: int, x: int, y: int, k: nat)
    requires
        nbrs_ok(nb, nb.len() as int),
        x != c,
        reaches_in(floor_steps(nb), x, y, k),
    ensures
        (y != c && reachable(steps_without(nb, c), x, y)) || exists|p: int|
            p != c && #[trigger] (floor_steps(nb))(p, c) && reachable(steps_without(nb, c), x, p),
    decreases k,
{
    let fs = floor_steps(nb);
    let gs = steps_without(nb, c);
    let s = choose|s: Seq<int>| #[trigger] path_of(fs, s, x, y, k);
    if k == 0 {
        assert(s[0] == y);
        lemma_reaches_self(gs, x);
    } else {
        let t = s.take(k as int);
        let m = s[k - 1];
        assert forall|i: int| 0 <= i < k - 1 implies #[trigger] link(fs, t, i) by {
            assert(link(fs, s, i));
        }
        assert(path_of(fs, t, x, m, (k - 1) as nat));
        lemma_enter(nb, c, x, m, (k - 1) as nat);
        assert(link(fs, s, k - 1));
        if m != c && reachable(gs, x, m) {
            if y == c {
                assert(fs(m, c));
            } else {
                lemma_step_without(nb, c, m, y);
                let j = choose|j: nat| #[trigger] reaches_in(gs, x, m, j);
                lemma_reaches_step(gs, x, m, y, j);
            }
        }
    }
}

/// A floor path to `y`, which is not `c`, either keeps off `c` all the way
/// from its start, or keeps off it from a cell one step from `c`.
proof fn lemma_leave(nb: Seq<[u16; 4]>, c: int, x: int, y: int, k: nat)
    requires
        nbrs_ok(nb, nb.len() as int),
        y != c,
        reaches_in(floor_steps(nb), x, y, k),
    ensures
        (x != c && reachable(steps_without(nb, c), x, y)) || exists|q: int|
            q != c && #[trigger] (floor_steps(nb))(c, q) && reachable(steps_without(nb, c), q, y),
    decreases k,
{
    let fs = floor_steps(nb);
    let gs = steps_without(nb, c);
    let s = choose|s: Seq<int>| #[trigger] path_of(fs, s, x, y, k);
    if k == 0 {
        assert(s[0] == y);
        lemma_reaches_self(gs, x);
    } else {
        let t = s.subrange(1, k + 1 as int);
        let m = s[1];
        assert forall|i: int| 0 <= i < k - 1 implies #[trigger] link(fs, t, i) by {
            assert(link(fs, s, i + 1));
        }
        assert(path_of(fs, t, m, y, (k - 1) as nat));
        lemma_leave(nb, c, m, y, (k - 1) as nat);
        assert(link(fs, s, 0));
        if m != c && reachable(gs, m, y) {
            if x == c {
                assert(fs(c, m));
            } else {
                lemma_step_without(nb, c, x, m);
                lemma_reaches_self(gs, x);
                lemma_reaches_step(gs, x, x, m, 0);
                lemma_reachable_trans(gs, x, m, y);
            }
        }
    }
}

/// On a floor whose neighbour relation goes both ways, a cell parts its
/// neighbours exactly when taking it out parts two connected cells.
proof fn lemma_parts_iff_cuts(nb: Seq<[u16; 4]>, c: int)
    requires
        nbrs_ok(nb, nb.len() as int),
        nbrs_symmetric(nb),
        0 <= c < nb.len(),
    ensures
        parts_neighbours(nb, c) <==> cuts_floor(nb, c),
{
    let fs = floor_steps(nb);
    let gs = steps_without(nb, c);
    let fl = Seq::new(nb.len(), |i: int| false);
    let f = first_other(nb, c);
    if parts_neighbours(nb, c) {
        let d = choose|d: int| #[trigger] other_nbr(nb, c, d) && !reachable(gs, nb[c]@[f] as int, nb[c]@[d] as int);
        let a = nb[c]@[f] as int;
        let v = nb[c]@[d] as int;
        let dir = dir_of(f);
        assert(spec_index(dir) == f);
        assert(nb[nb[c]@[spec_index(dir)] as int]@[spec_index(spec_opposite(dir))] == c);
        let e = spec_index(spec_opposite(dir));
        assert(0 <= a < nb.len() && 0 <= v < nb.len());
        assert(0 <= e < 4 && 0 <= a < nb.len() && nb[a]@[e] == c && c != INVALID_CELL && !fl[a] && !fl[c]);
        assert(fs(a, c));
        assert(0 <= d < 4 && 0 <= c < nb.len() && nb[c]@[d] == v && v != INVALID_CELL && !fl[c] && !fl[v]);
        assert(fs(c, v));
        lemma_reaches_self(fs, a);
        lemma_reaches_step(fs, a, a, c, 0);
        lemma_reaches_step(fs, a, c, v, 1);
        assert(reachable(fs, a, v));
        assert(cuts_floor(nb, c));
    }
    if cuts_floor(nb, c) && !parts_neighbours(nb, c) {
        let (x, y) = choose|x: int, y: int|
            #![trigger reachable(floor_steps(nb), x, y)]
            0 <= x < nb.len() && 0 <= y < nb.len() && x != c && y != c && reachable(floor_steps(nb), x, y)
                && !reachable(steps_without(nb, c), x, y);
        let k = choose|k: nat| #[trigger] reaches_in(fs, x, y, k);
        lemma_enter(nb, c, x, y, k);
        lemma_leave(nb, c, x, y, k);
        let p = choose|p: int| p != c && #[trigger] fs(p, c) && reachable(gs, x, p);
        let q = choose|q: int| q != c && #[trigger] fs(c, q) && reachable(gs, q, y);
        let ep = choose|ep: int|
            0 <= ep < 4 && 0 <= p < nb.len() && #[trigger] nb[p]@[ep] == c && c != INVALID_CELL && !fl[p] && !fl[c];
        let dir = dir_of(ep);
        assert(spec_index(dir) == ep);
        assert(nb[nb[p]@[spec_index(dir)] as int]@[spec_index(spec_opposite(dir))] == p);
        let e1 = spec_index(spec_opposite(dir));
        assert(other_nbr(nb, c, e1));
        let eq = choose|eq: int|
            0 <= eq < 4 && 0 <= c < nb.len() && #[trigger] nb[c]@[eq] == q && q != INVALID_CELL && !fl[c] && !fl[q];
        assert(other_nbr(nb, c, eq));
        assert(f < 4);
        let a = nb[c]@[f] as int;
        assert(reachable(gs, a, p));
        assert(reachable(gs, a, q));
        lemma_open_symmetric(nb, only_cell(nb.len(), c));
        lemma_reachable_back(gs, a, p);
        lemma_reachable_trans(gs, x, p, a);
        lemma_reachable_trans(gs, x, a, q);
        lemma_reachable_trans(gs, x, q, y);
    }
}

} // verus!
