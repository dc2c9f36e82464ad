use vstd::prelude::*;

use crate::bfs::{in_queue, list_step, lists, lists_ok};
use crate::compiled_board::{dir_of, direction_at, nbrs_ok, nbrs_symmetric, CompiledBoard, INVALID_CELL};
use crate::graph::{
    lemma_closed_reach, lemma_reachable_back, lemma_reachable_trans, lemma_reaches_self, lemma_reaches_step, reachable,
    reaches_in,
};
use crate::planning::rooms::{contains_room, rooms_cover, RoomMap, NO_ROOM};
use crate::position::{spec_index, spec_opposite};

verus! {

broadcast use vstd::std_specs::vec::group_vec_axioms;

/// Doorways `x` and `y` are neighbours.
pub open spec fn door_step(nb: Seq<[u16; 4]>, door: Seq<bool>, x: int, y: int) -> bool {
    exists|d: int| 0 <= d < 4 && 0 <= x < nb.len() && #[trigger] nb[x]@[d] == y && y != INVALID_CELL && door[x] && door[y]
}

/// The graph of the doorways.
pub open spec fn door_steps(nb: Seq<[u16; 4]>, door: Seq<bool>) -> spec_fn(int, int) -> bool {
    |x: int, y: int| door_step(nb, door, x, y)
}

/// Room `r` is the room of a neighbour of cell `x`.
pub open spec fn touches(nb: Seq<[u16; 4]>, ids: Seq<u16>, x: int, r: int) -> bool {
    exists|d: int| 0 <= d < 4 && nb[x]@[d] != INVALID_CELL && #[trigger] ids[nb[x]@[d] as int] == r && r != NO_ROOM
}

/// Some doorway of the cluster of doorways around `s` touches room `r`.
pub open spec fn cluster_touches(nb: Seq<[u16; 4]>, door: Seq<bool>, ids: Seq<u16>, s: int, r: int) -> bool {
    exists|y: int| #[trigger] reachable(door_steps(nb, door), s, y) && touches(nb, ids, y, r)
}

/// Rooms `a` and `b` are different and some cluster of connected doorways
/// touches both.
pub open spec fn room_link(nb: Seq<[u16; 4]>, door: Seq<bool>, ids: Seq<u16>, a: int, b: int) -> bool {
    a != b && exists|s: int|
        0 <= s < nb.len() && door[s] && #[trigger] cluster_touches(nb, door, ids, s, a) && cluster_touches(nb, door, ids, s, b)
}

/// With a symmetric neighbour table, the doorway graph goes both ways.
proof fn lemma_door_symmetric(nb: Seq<[u16; 4]>, door: Seq<bool>)
    requires
        nbrs_ok(nb, nb.len() as int),
        nbrs_symmetric(nb),
    ensures
        forall|x: int, y: int| #[trigger] (door_steps(nb, door))(x, y) ==> (door_steps(nb, door))(y, x),
{
    assert forall|x: int, y: int| #[trigger] (door_steps(nb, door))(x, y) implies (door_steps(nb, door))(y, x) by {
        let d = choose|d: int| 0 <= d < 4 && 0 <= x < nb.len() && #[trigger] nb[x]@[d] == y && y != INVALID_CELL && door[x] && door[y];
        let dir = dir_of(d);
        assert(spec_index(dir) == d);
        assert(nb[nb[x]@[spec_index(dir)] as int]@[spec_index(spec_opposite(dir))] == x);
        let e = spec_index(spec_opposite(dir));
        assert(0 <= e < 4 && 0 <= y < nb.len() && nb[y]@[e] == x && x != INVALID_CELL && door[y] && door[x]);
    }
}

/// Cells reached over doorways from a cell are cells and doorways (beyond
/// the start).
pub proof fn lemma_door_reach(nb: Seq<[u16; 4]>, door: Seq<bool>, a: int, b: int)
    requires
        nbrs_ok(nb, nb.len() as int),
        0 <= a < nb.len(),
        door[a],
        reachable(door_steps(nb, door), a, b),
    ensures
        0 <= b < nb.len(),
        door[b],
{
    let inside = |x: int| 0 <= x < nb.len() && door[x];
    assert forall|x: int, y: int| inside(x) && #[trigger] (door_steps(nb, door))(x, y) implies inside(y) by {
        let d = choose|d: int| 0 <= d < 4 && 0 <= x < nb.len() && #[trigger] nb[x]@[d] == y && y != INVALID_CELL && door[x] && door[y];
    }
    lemma_closed_reach(door_steps(nb, door), inside, a, b);
}

/// The flags `v` are closed under the doorway graph.
pub open spec fn door_closed(nb: Seq<[u16; 4]>, door: Seq<bool>, v: Seq<bool>) -> bool {
    forall|x: int, y: int| 0 <= x < v.len() && v[x] && #[trigger] door_step(nb, door, x, y) ==> v[y]
}

/// The rooms that the doorways of cluster-start cells flagged in `started`
/// link, as found so far: `adj` links `a` to `b` exactly when some started
/// doorway's cluster touches both.
pub open spec fn links_from(nb: Seq<[u16; 4]>, door: Seq<bool>, ids: Seq<u16>, v: Seq<bool>, adj: Seq<Vec<u16>>) -> bool {
    forall|a: int, b: int|
        0 <= a < adj.len() && 0 <= b < adj.len() ==> (#[trigger] adj[a]@.contains(b as u16) <==> (a != b && exists|s: int|
            0 <= s < nb.len() && v[s] && #[trigger] cluster_touches(nb, door, ids, s, a) && cluster_touches(nb, door, ids, s, b)))
}

/// Adds `b` to list `a` of `adj` unless it is there.
fn add_link(adj: &mut Vec<Vec<u16>>, a: u16, b: u16)
    requires
        (a as int) < old(adj)@.len(),
    ensures
        final(adj)@.len() == old(adj)@.len(),
        forall|x: int| 0 <= x < old(adj)@.len() && x != a ==> #[trigger] final(adj)@[x] == old(adj)@[x],
        forall|y: u16| #[trigger] final(adj)@[a as int]@.contains(y) <==> old(adj)@[a as int]@.contains(y) || y == b,
        forall|k: int|
            0 <= k < final(adj)@[a as int]@.len() ==> #[trigger] final(adj)@[a as int]@[k] == b || old(adj)@[a as int]@.contains(
                final(adj)@[a as int]@[k],
            ),
{
    if !contains_room(&adj[a as usize], b) {
        let mut row = adj[a as usize].clone();
        proof {
            assert(row@ =~= old(adj)@[a as int]@);
        }
        let ghost r0 = row@;
        row.push(b);
        proof {
            assert forall|y: u16| #[trigger] row@.contains(y) <==> r0.contains(y) || y == b by {
                if row@.contains(y) {
                    let q = choose|q: int| 0 <= q < row@.len() && row@[q] == y;
                    if q < r0.len() {
                        assert(r0[q] == y);
                    }
                }
                if r0.contains(y) {
                    let q = choose|q: int| 0 <= q < r0.len() && r0[q] == y;
                    assert(row@[q] == y);
                }
                if y == b {
                    assert(row@[row@.len() - 1] == b);
                }
            }
        }
        adj.set(a as usize, row);
    }
}

/// The adjacency lists of the rooms: for every room, the other rooms that
/// some cluster of connected doorways touches together with it. On a board
/// whose neighbour relation is symmetric, list `a` holds `b` exactly when
/// the rooms are linked so.
pub fn build_room_adjacency(cb: &CompiledBoard, rooms: &RoomMap) -> (adj: Vec<Vec<u16>>)
    requires
        cb.wf(),
        rooms.is_doorway@.len() == cb.cell_count,
        rooms_cover(rooms.is_doorway@, rooms.room_id@, rooms.room_count as int),
    ensures
        lists_ok(adj@, rooms.room_count as int),
        nbrs_symmetric(cb.nbrs()) ==> forall|a: int, b: int|
            0 <= a < rooms.room_count && 0 <= b < rooms.room_count ==> (#[trigger] adj@[a]@.contains(b as u16) <==> room_link(
                cb.nbrs(),
                rooms.is_doorway@,
                rooms.room_id@,
                a,
                b,
            )),
{
    proof {
        cb.lemma_wf();
    }
    let ghost nb = cb.nbrs();
    let ghost door = rooms.is_doorway@;
    let ghost ids = rooms.room_id@;
    let ghost ds = door_steps(nb, door);
    let ghost sym = nbrs_symmetric(nb);
    let ghost n = cb.cell_count as int;
    let n_rooms = rooms.room_count as usize;
    let mut adj: Vec<Vec<u16>> = Vec::new();
    let mut i: usize = 0;
    while i < n_rooms
        invariant
            i <= n_rooms,
            adj@.len() == i,
            forall|a: int| 0 <= a < i ==> (#[trigger] adj@[a])@.len() == 0,
        decreases n_rooms - i,
    {
        adj.push(Vec::new());
        i += 1;
    }
    let mut visited: Vec<bool> = vec![false; cb.cell_count as usize];
    proof {
        if sym {
            lemma_door_symmetric(nb, door);
        }
        assert forall|a: int, b: int| 0 <= a < adj@.len() && 0 <= b < adj@.len() implies (#[trigger] adj@[a]@.contains(b as u16) <==> (a != b
            && exists|s: int| 0 <= s < nb.len() && visited@[s] && #[trigger] cluster_touches(nb, door, ids, s, a) && cluster_touches(nb, door, ids, s, b))) by {
            assert(adj@[a]@.len() == 0);
        }
    }
    let mut cell: u16 = 0;
    while cell < cb.cell_count
        invariant
            cb.wf(),
            nb == cb.nbrs(),
            door == rooms.is_doorway@,
            ids == rooms.room_id@,
            ds == door_steps(nb, door),
            sym == nbrs_symmetric(nb),
            n == cb.cell_count,
            nbrs_ok(nb, n),
            rooms_cover(door, ids, rooms.room_count as int),
            door.len() == n,
            n_rooms == rooms.room_count,
            sym ==> forall|x: int, y: int| #[trigger] ds(x, y) ==> ds(y, x),
            visited@.len() == n,
            cell <= n,
            forall|x: int| 0 <= x < n && #[trigger] visited@[x] ==> door[x],
            forall|x: int| 0 <= x < cell && door[x] ==> #[trigger] visited@[x],
            door_closed(nb, door, visited@),
            lists_ok(adj@, n_rooms as int),
            sym ==> links_from(nb, door, ids, visited@, adj@),
        decreases n - cell,
    {
        if !rooms.is_doorway(cell) || visited[cell as usize] {
            cell += 1;
            continue;
        }
        let ghost v0 = visited@;
        let ghost adj0 = adj@;
        let mut cluster_rooms: Vec<u16> = Vec::new();
        let mut stack: Vec<u16> = Vec::new();
        stack.push(cell);
        visited.set(cell as usize, true);
        proof {
            lemma_reaches_self(ds, cell as int);
            assert(stack@[0] == cell);
            assert(in_queue(stack@, cell as int));
        }
        loop
            invariant
                cb.wf(),
                nb == cb.nbrs(),
                door == rooms.is_doorway@,
                ids == rooms.room_id@,
                ds == door_steps(nb, door),
                n == cb.cell_count,
                nbrs_ok(nb, n),
                rooms_cover(door, ids, rooms.room_count as int),
                door.len() == n,
                v0.len() == n,
                visited@.len() == n,
                cell < n,
                door[cell as int],
                !v0[cell as int],
                visited@[cell as int],
                door_closed(nb, door, v0),
                forall|x: int| 0 <= x < n && #[trigger] v0[x] ==> visited@[x],
                forall|x: int| 0 <= x < n && #[trigger] visited@[x] ==> door[x],
                forall|x: int| 0 <= x < n && visited@[x] && !v0[x] ==> #[trigger] reachable(ds, cell as int, x),
                forall|i: int| 0 <= i < stack@.len() ==> (#[trigger] stack@[i]) < n && visited@[stack@[i] as int] && !v0[stack@[i] as int],
                forall|x: int, y: int|
                    0 <= x < n && visited@[x] && !v0[x] && !in_queue(stack@, x) && #[trigger] door_step(nb, door, x, y) ==> visited@[y],
                forall|r: int| #[trigger] cluster_rooms@.contains(r as u16) && 0 <= r < NO_ROOM ==> exists|x: int|
                    0 <= x < n && visited@[x] && !v0[x] && #[trigger] touches(nb, ids, x, r),
                forall|x: int, r: int|
                    0 <= x < n && visited@[x] && !v0[x] && !in_queue(stack@, x) && #[trigger] touches(nb, ids, x, r) ==> cluster_rooms@.contains(r as u16),
                forall|k: int| 0 <= k < cluster_rooms@.len() ==> (#[trigger] cluster_rooms@[k]) < rooms.room_count,
                forall|k: int, l: int| 0 <= k < l < cluster_rooms@.len() ==> #[trigger] cluster_rooms@[k] != #[trigger] cluster_rooms@[l],
            ensures
                stack@.len() == 0,
            decreases n - count_set(visited@), stack@.len(),
        {
            let ghost s0 = stack@;
            let ghost vb = visited@;
            match stack.pop() {
                None => {
                    break;
                },
                Some(d) => {
                    proof {
                        assert(s0.last() == d);
                        assert(stack@ =~= s0.drop_last());
                        assert forall|x: int| x != d && !#[trigger] in_queue(stack@, x) implies !in_queue(s0, x) by {
                            if in_queue(s0, x) {
                                let i = choose|i: int| 0 <= i < s0.len() && s0[i] == x;
                                assert(i < s0.len() - 1);
                                assert(stack@[i] == x);
                            }
                        }
                    }
                    let mut k: usize = 0;
                    while k < 4
                        invariant
                            cb.wf(),
                            nb == cb.nbrs(),
                            door == rooms.is_doorway@,
                            ids == rooms.room_id@,
                            ds == door_steps(nb, door),
                            n == cb.cell_count,
                            nbrs_ok(nb, n),
                            rooms_cover(door, ids, rooms.room_count as int),
                            door.len() == n,
                            v0.len() == n,
                            visited@.len() == n,
                            cell < n,
                            d < n,
                            visited@[d as int],
                            !v0[d as int],
                            door[cell as int],
                            !v0[cell as int],
                            visited@[cell as int],
                            door_closed(nb, door, v0),
                            forall|x: int| 0 <= x < n && #[trigger] v0[x] ==> visited@[x],
                            forall|x: int| 0 <= x < n && #[trigger] visited@[x] ==> door[x],
                            forall|x: int| 0 <= x < n && visited@[x] && !v0[x] ==> #[trigger] reachable(ds, cell as int, x),
                            forall|i: int| 0 <= i < stack@.len() ==> (#[trigger] stack@[i]) < n && visited@[stack@[i] as int] && !v0[stack@[i] as int],
                            forall|x: int, y: int|
                                0 <= x < n && x != d && visited@[x] && !v0[x] && !in_queue(stack@, x) && #[trigger] door_step(nb, door, x, y)
                                    ==> visited@[y],
                            forall|j: int| 0 <= j < k && #[trigger] door_step(nb, door, d as int, nb[d as int]@[j] as int) ==> visited@[nb[d as int]@[j] as int],
                            forall|r: int| #[trigger] cluster_rooms@.contains(r as u16) && 0 <= r < NO_ROOM ==> exists|x: int|
                                0 <= x < n && visited@[x] && !v0[x] && #[trigger] touches(nb, ids, x, r),
                            forall|x: int, r: int|
                                0 <= x < n && x != d && visited@[x] && !v0[x] && !in_queue(stack@, x) && #[trigger] touches(nb, ids, x, r)
                                    ==> cluster_rooms@.contains(r as u16),
                            forall|j: int|
                                0 <= j < k && (#[trigger] nb[d as int]@[j]) != INVALID_CELL && ids[nb[d as int]@[j] as int] != NO_ROOM
                                    ==> cluster_rooms@.contains(ids[nb[d as int]@[j] as int]),
                            forall|q: int| 0 <= q < cluster_rooms@.len() ==> (#[trigger] cluster_rooms@[q]) < rooms.room_count,
                            forall|q: int, l: int| 0 <= q < l < cluster_rooms@.len() ==> #[trigger] cluster_rooms@[q] != #[trigger] cluster_rooms@[l],
                            count_set(visited@) >= count_set(vb),
                            count_set(visited@) == count_set(vb) ==> stack@.len() <= s0.len() - 1,
                        decreases 4 - k,
                    {
                        let dir = direction_at(k);
                        let nbc = cb.neighbor(d, dir);
                        if nbc != INVALID_CELL {
                            match rooms.cell_room(nbc) {
                                Some(r) => {
                                    let ghost cr0 = cluster_rooms@;
                                    if !contains_room(&cluster_rooms, r) {
                                        cluster_rooms.push(r);
                                    }
                                    proof {
                                        assert(touches(nb, ids, d as int, r as int)) by {
                                            assert(nb[d as int]@[k as int] == nbc);
                                        }
                                        assert forall|rr: int| #[trigger] cluster_rooms@.contains(rr as u16) && 0 <= rr < NO_ROOM implies exists|x: int|
                                            0 <= x < n && visited@[x] && !v0[x] && #[trigger] touches(nb, ids, x, rr) by {
                                            if rr != r {
                                                assert(cr0.contains(rr as u16)) by {
                                                    let q = choose|q: int| 0 <= q < cluster_rooms@.len() && cluster_rooms@[q] == rr as u16;
                                                    if q < cr0.len() {
                                                        assert(cluster_rooms@[q] == cr0[q]);
                                                    }
                                                }
                                            }
                                        }
                                        assert forall|x: int, rr: int|
                                            0 <= x < n && x != d && visited@[x] && !v0[x] && !in_queue(stack@, x) && #[trigger] touches(nb, ids, x, rr)
                                                implies cluster_rooms@.contains(rr as u16) by {
                                            assert(cr0.contains(rr as u16));
                                            let q = choose|q: int| 0 <= q < cr0.len() && cr0[q] == rr as u16;
                                            assert(cluster_rooms@[q] == cr0[q]);
                                        }
                                        assert forall|j: int|
                                            0 <= j < k + 1 && (#[trigger] nb[d as int]@[j]) != INVALID_CELL && ids[nb[d as int]@[j] as int] != NO_ROOM
                                                implies cluster_rooms@.contains(ids[nb[d as int]@[j] as int]) by {
                                            if j < k {
                                                let q = choose|q: int| 0 <= q < cr0.len() && cr0[q] == ids[nb[d as int]@[j] as int];
                                                assert(cluster_rooms@[q] == cr0[q]);
                                            } else {
                                                if cr0.contains(r) {
                                                    let q = choose|q: int| 0 <= q < cr0.len() && cr0[q] == r;
                                                    assert(cluster_rooms@[q] == cr0[q]);
                                                } else {
                                                    assert(cluster_rooms@[cluster_rooms@.len() - 1] == r);
                                                }
                                            }
                                        }
                                        assert forall|q: int, l: int| 0 <= q < l < cluster_rooms@.len() implies #[trigger] cluster_rooms@[q]
                                            != #[trigger] cluster_rooms@[l] by {
                                            if l == cr0.len() {
                                                assert(cluster_rooms@[q] == cr0[q]);
                                            }
                                        }
                                        assert(!door_step(nb, door, d as int, nbc as int));
                                    }
                                },
                                None => {
                                    if rooms.is_doorway(nbc) && !visited[nbc as usize] {
                                        let ghost vbb = visited@;
                                        let ghost sb = stack@;
                                        proof {
                                            lemma_count_set_set(visited@, nbc as int);
                                            assert(door_step(nb, door, d as int, nbc as int)) by {
                                                assert(nb[d as int]@[k as int] == nbc);
                                            }
                                            assert(reachable(ds, cell as int, d as int));
                                            let kk = choose|kk: nat| #[trigger] reaches_in(ds, cell as int, d as int, kk);
                                            lemma_reaches_step(ds, cell as int, d as int, nbc as int, kk);
                                        }
                                        visited.set(nbc as usize, true);
                                        stack.push(nbc);
                                        proof {
                                            assert(stack@[stack@.len() - 1] == nbc);
                                            assert forall|i: int| 0 <= i < stack@.len() implies (#[trigger] stack@[i]) < n && visited@[stack@[i] as int]
                                                && !v0[stack@[i] as int] by {
                                                if i < stack@.len() - 1 {
                                                    assert(stack@[i] == sb[i]);
                                                }
                                            }
                                            assert forall|x: int| 0 <= x < n && visited@[x] && !v0[x] implies #[trigger] reachable(ds, cell as int, x) by {
                                                if x != nbc {
                                                    assert(vbb[x]);
                                                }
                                            }
                                            assert forall|x: int, y: int|
                                                0 <= x < n && x != d && visited@[x] && !v0[x] && !in_queue(stack@, x) && #[trigger] door_step(nb, door, x, y)
                                                    implies visited@[y] by {
                                                assert(x != nbc);
                                                assert(!in_queue(sb, x)) by {
                                                    if in_queue(sb, x) {
                                                        let i = choose|i: int| 0 <= i < sb.len() && sb[i] == x;
                                                        assert(stack@[i] == x);
                                                    }
                                                }
                                                assert(vbb[y]);
                                            }
                                            assert forall|rr: int| #[trigger] cluster_rooms@.contains(rr as u16) && 0 <= rr < NO_ROOM implies exists|x: int|
                                                0 <= x < n && visited@[x] && !v0[x] && #[trigger] touches(nb, ids, x, rr) by {
                                                let x = choose|x: int| 0 <= x < n && vbb[x] && !v0[x] && #[trigger] touches(nb, ids, x, rr);
                                                assert(visited@[x]);
                                            }
                                            assert forall|x: int, rr: int|
                                                0 <= x < n && x != d && visited@[x] && !v0[x] && !in_queue(stack@, x) && #[trigger] touches(nb, ids, x, rr)
                                                    implies cluster_rooms@.contains(rr as u16) by {
                                                assert(x != nbc);
                                                assert(!in_queue(sb, x)) by {
                                                    if in_queue(sb, x) {
                                                        let i = choose|i: int| 0 <= i < sb.len() && sb[i] == x;
                                                        assert(stack@[i] == x);
                                                    }
                                                }
                                            }
                                        }
                                    } else {
                                        proof {
                                            if door_step(nb, door, d as int, nbc as int) {
                                                assert(visited@[nbc as int]);
                                            }
                                        }
                                    }
                                },
                            }
                        }
                        k += 1;
                    }
                    proof {
                        assert forall|x: int, y: int|
                            0 <= x < n && visited@[x] && !v0[x] && !in_queue(stack@, x) && #[trigger] door_step(nb, door, x, y) implies visited@[y] by {
                            if x == d {
                                let j = choose|j: int| 0 <= j < 4 && 0 <= x < nb.len() && #[trigger] nb[x]@[j] == y && y != INVALID_CELL && door[x] && door[y];
                                assert(door_step(nb, door, d as int, nb[d as int]@[j] as int));
                            }
                        }
                        assert forall|x: int, r: int|
                            0 <= x < n && visited@[x] && !v0[x] && !in_queue(stack@, x) && #[trigger] touches(nb, ids, x, r) implies cluster_rooms@.contains(r as u16) by {
                            if x == d {
                                let j = choose|j: int| 0 <= j < 4 && nb[x]@[j] != INVALID_CELL && #[trigger] ids[nb[x]@[j] as int] == r && r != NO_ROOM;
                                assert(nb[d as int]@[j] != INVALID_CELL && ids[nb[d as int]@[j] as int] != NO_ROOM);
                            }
                        }
                        lemma_count_set_le(visited@);
                    }
                },
            }
        }
        let ghost cr = cluster_rooms@;
        proof {
            assert forall|x: int| 0 <= x < cell + 1 && door[x] implies #[trigger] visited@[x] by {
                if x < cell {
                    assert(v0[x]);
                }
            }
        }
        let mut i: usize = 0;
        while i < cluster_rooms.len()
            invariant
                n_rooms == rooms.room_count,
                lists_ok(adj@, n_rooms as int),
                cr == cluster_rooms@,
                forall|q: int| 0 <= q < cr.len() ==> (#[trigger] cr[q]) < n_rooms,
                forall|q: int, l: int| 0 <= q < l < cr.len() ==> #[trigger] cr[q] != #[trigger] cr[l],
                adj@.len() == adj0.len(),
                i <= cr.len(),
                forall|a: int, b: int|
                    0 <= a < adj@.len() && 0 <= b < adj@.len() ==> (#[trigger] adj@[a]@.contains(b as u16) <==> adj0[a]@.contains(b as u16)
                        || (a != b && exists|p: int, q: int|
                        0 <= p < cr.len() && 0 <= q < cr.len() && (p < i || q < i) && #[trigger] cr[p] == a && #[trigger] cr[q] == b)),
            decreases cr.len() - i,
        {
            let mut j: usize = i + 1;
            while j < cluster_rooms.len()
                invariant
                    n_rooms == rooms.room_count,
                    lists_ok(adj@, n_rooms as int),
                    cr == cluster_rooms@,
                    forall|q: int| 0 <= q < cr.len() ==> (#[trigger] cr[q]) < n_rooms,
                    forall|q: int, l: int| 0 <= q < l < cr.len() ==> #[trigger] cr[q] != #[trigger] cr[l],
                    adj@.len() == adj0.len(),
                    i < cr.len(),
                    i + 1 <= j <= cr.len(),
                    forall|a: int, b: int|
                        0 <= a < adj@.len() && 0 <= b < adj@.len() ==> (#[trigger] adj@[a]@.contains(b as u16) <==> adj0[a]@.contains(b as u16)
                            || (a != b && exists|p: int, q: int|
                            0 <= p < cr.len() && 0 <= q < cr.len() && (p < i || q < i || (p == i && q < j) || (q == i && p < j))
                                && #[trigger] cr[p] == a && #[trigger] cr[q] == b)),
                decreases cr.len() - j,
            {
                let a = cluster_rooms[i];
                let b = cluster_rooms[j];
                let ghost before = adj@;
                add_link(&mut adj, a, b);
                let ghost mid = adj@;
                add_link(&mut adj, b, a);
                proof {
                    assert forall|x: int, jj: int| 0 <= x < n_rooms && 0 <= jj < adj@[x]@.len() implies (#[trigger] adj@[x]@[jj]) < n_rooms by {
                        if x == b {
                            if adj@[x]@[jj] != a {
                                let q = choose|q: int| 0 <= q < mid[x]@.len() && mid[x]@[q] == adj@[x]@[jj];
                                if x == a {
                                } else {
                                    assert(mid[x] == before[x]);
                                }
                            }
                        } else if x == a {
                            assert(adj@[x] == mid[x]);
                            if adj@[x]@[jj] != b {
                                let q = choose|q: int| 0 <= q < before[x]@.len() && before[x]@[q] == adj@[x]@[jj];
                            }
                        } else {
                            assert(adj@[x] == before[x]);
                        }
                    }
                    assert forall|x: int, y: int|
                        0 <= x < adj@.len() && 0 <= y < adj@.len() implies (#[trigger] adj@[x]@.contains(y as u16) <==> adj0[x]@.contains(y as u16)
                            || (x != y && exists|p: int, q: int|
                            0 <= p < cr.len() && 0 <= q < cr.len() && (p < i || q < i || (p == i && q < j + 1) || (q == i && p < j + 1))
                                && #[trigger] cr[p] == x && #[trigger] cr[q] == y)) by {
                        assert(cr[i as int] == a && cr[j as int] == b);
                        if x == a && y == b {
                            assert(cr[i as int] == x && cr[j as int] == y);
                        }
                        if x == b && y == a {
                            assert(cr[j as int] == x && cr[i as int] == y);
                        }
                        if x != a && x != b {
                            assert(adj@[x] == before[x]);
                        }
                        if x == a && x != b {
                            assert(adj@[x] == mid[x]);
                        }
                    }
                }
                j += 1;
            }
            i += 1;
        }
        proof {
            lemma_cluster_update(nb, door, ids, v0, visited@, adj0, adj@, cr, cell as int, n, sym);
        }
        cell += 1;
    }
    proof {
        if sym {
            assert forall|a: int, b: int|
                0 <= a < n_rooms && 0 <= b < n_rooms implies (#[trigger] adj@[a]@.contains(b as u16) <==> room_link(nb, door, ids, a, b)) by {
                if room_link(nb, door, ids, a, b) {
                    let s = choose|s: int|
                        0 <= s < nb.len() && door[s] && #[trigger] cluster_touches(nb, door, ids, s, a) && cluster_touches(nb, door, ids, s, b);
                    assert(visited@[s]);
                }
            }
        }
    }
    adj
}

/// How many entries of `s` are set.
spec fn count_set(s: Seq<bool>) -> nat
    decreases s.len(),
{
    if s.len() == 0 {
        0
    } else {
        count_set(s.drop_last()) + if s.last() {
            1nat
        } else {
            0nat
        }
    }
}

proof fn lemma_count_set_set(s: Seq<bool>, i: int)
    requires
        0 <= i < s.len(),
        !s[i],
    ensures
        count_set(s.update(i, true)) == count_set(s) + 1,
    decreases s.len(),
{
    if i < s.len() - 1 {
        lemma_count_set_set(s.drop_last(), i);
        assert(s.update(i, true).drop_last() =~= s.drop_last().update(i, true));
    } else {
        assert(s.update(i, true).drop_last() =~= s.drop_last());
    }
}

proof fn lemma_count_set_le(s: Seq<bool>)
    ensures
        count_set(s) <= s.len(),
    decreases s.len(),
{
    if s.len() > 0 {
        lemma_count_set_le(s.drop_last());
    }
}

/// After a cluster is explored from `start`, the links found so far are
/// those of the started cells, the cluster's included.
proof fn lemma_cluster_update(
    nb: Seq<[u16; 4]>,
    door: Seq<bool>,
    ids: Seq<u16>,
    v0: Seq<bool>,
    v1: Seq<bool>,
    adj0: Seq<Vec<u16>>,
    adj1: Seq<Vec<u16>>,
    cr: Seq<u16>,
    start: int,
    n: int,
    sym: bool,
)
    requires
        nbrs_ok(nb, n),
        nb.len() == n,
        door.len() == n,
        ids.len() == n,
        v0.len() == n,
        v1.len() == n,
        0 <= start < n,
        door[start],
        !v0[start],
        v1[start],
        sym == nbrs_symmetric(nb),
        sym ==> forall|x: int, y: int| #[trigger] (door_steps(nb, door))(x, y) ==> (door_steps(nb, door))(y, x),
        door_closed(nb, door, v0),
        forall|x: int| 0 <= x < n && #[trigger] v0[x] ==> v1[x],
        forall|x: int| 0 <= x < n && #[trigger] v0[x] ==> door[x],
        forall|x: int| 0 <= x < n && #[trigger] v1[x] ==> door[x],
        forall|x: int| 0 <= x < n && v1[x] && !v0[x] ==> #[trigger] reachable(door_steps(nb, door), start, x),
        forall|x: int, y: int| 0 <= x < n && v1[x] && !v0[x] && #[trigger] door_step(nb, door, x, y) ==> v1[y],
        forall|r: int| #[trigger] cr.contains(r as u16) && 0 <= r < NO_ROOM ==> exists|x: int|
            0 <= x < n && v1[x] && !v0[x] && #[trigger] touches(nb, ids, x, r),
        forall|x: int, r: int| 0 <= x < n && v1[x] && !v0[x] && #[trigger] touches(nb, ids, x, r) ==> cr.contains(r as u16),
        adj1.len() == adj0.len(),
        adj0.len() <= NO_ROOM,
        forall|a: int, b: int|
            0 <= a < adj1.len() && 0 <= b < adj1.len() ==> (#[trigger] adj1[a]@.contains(b as u16) <==> adj0[a]@.contains(b as u16)
                || (a != b && exists|p: int, q: int|
                0 <= p < cr.len() && 0 <= q < cr.len() && (p < cr.len() || q < cr.len()) && #[trigger] cr[p] == a && #[trigger] cr[q] == b)),
        sym ==> links_from(nb, door, ids, v0, adj0),
    ensures
        door_closed(nb, door, v1),
        sym ==> links_from(nb, door, ids, v1, adj1),
{
    let ds = door_steps(nb, door);
    assert forall|x: int, y: int| 0 <= x < v1.len() && v1[x] && #[trigger] door_step(nb, door, x, y) implies v1[y] by {
        if v0[x] {
            assert(v0[y]);
        }
    }
    if sym {
        // The cluster is exactly what the start reaches, and no started cell before.
        assert forall|y: int| #[trigger] reachable(ds, start, y) implies 0 <= y < n && v1[y] && !v0[y] by {
            lemma_door_reach(nb, door, start, y);
            let inside = |x: int| 0 <= x < n && v1[x];
            assert forall|x: int, z: int| inside(x) && #[trigger] ds(x, z) implies inside(z) by {
                assert(door_step(nb, door, x, z));
                if v0[x] {
                    assert(v0[z]);
                }
            }
            lemma_closed_reach(ds, inside, start, y);
            if v0[y] {
                lemma_reachable_back(ds, start, y);
                let inside0 = |x: int| 0 <= x < n && v0[x];
                assert forall|x: int, z: int| inside0(x) && #[trigger] ds(x, z) implies inside0(z) by {
                    assert(door_step(nb, door, x, z));
                }
                lemma_closed_reach(ds, inside0, y, start);
            }
        }
        // Every cell of the cluster sees the same rooms as the start.
        assert forall|s: int, r: int|
            0 <= s < n && v1[s] && !v0[s] implies (#[trigger] cluster_touches(nb, door, ids, s, r) <==> (0 <= r < NO_ROOM && cr.contains(r as u16))) by {
            assert(reachable(ds, start, s));
            lemma_reachable_back(ds, start, s);
            if cluster_touches(nb, door, ids, s, r) {
                let y = choose|y: int| #[trigger] reachable(ds, s, y) && touches(nb, ids, y, r);
                lemma_reachable_trans(ds, start, s, y);
                assert(v1[y] && !v0[y]);
            }
            if 0 <= r < NO_ROOM && cr.contains(r as u16) {
                let x = choose|x: int| 0 <= x < n && v1[x] && !v0[x] && #[trigger] touches(nb, ids, x, r);
                assert(reachable(ds, start, x));
                lemma_reachable_trans(ds, s, start, x);
                assert(reachable(ds, s, x) && touches(nb, ids, x, r));
            }
        }
        assert forall|a: int, b: int|
            0 <= a < adj1.len() && 0 <= b < adj1.len() implies (#[trigger] adj1[a]@.contains(b as u16) <==> (a != b && exists|s: int|
                0 <= s < nb.len() && v1[s] && #[trigger] cluster_touches(nb, door, ids, s, a) && cluster_touches(nb, door, ids, s, b))) by {
            if adj1[a]@.contains(b as u16) {
                if adj0[a]@.contains(b as u16) {
                    let s = choose|s: int|
                        0 <= s < nb.len() && v0[s] && #[trigger] cluster_touches(nb, door, ids, s, a) && cluster_touches(nb, door, ids, s, b);
                    assert(v1[s]);
                } else {
                    let (p, q) = choose|p: int, q: int|
                        0 <= p < cr.len() && 0 <= q < cr.len() && (p < cr.len() || q < cr.len()) && #[trigger] cr[p] == a && #[trigger] cr[q] == b;
                    assert(cr.contains(a as u16) && cr.contains(b as u16));
                    assert(cluster_touches(nb, door, ids, start, a));
                    assert(cluster_touches(nb, door, ids, start, b));
                }
            }
            if a != b && exists|s: int|
                0 <= s < nb.len() && v1[s] && #[trigger] cluster_touches(nb, door, ids, s, a) && cluster_touches(nb, door, ids, s, b) {
                let s = choose|s: int|
                    0 <= s < nb.len() && v1[s] && #[trigger] cluster_touches(nb, door, ids, s, a) && cluster_touches(nb, door, ids, s, b);
                if v0[s] {
                    assert(adj0[a]@.contains(b as u16));
                } else {
                    assert(cr.contains(a as u16) && cr.contains(b as u16));
                    let p = choose|p: int| 0 <= p < cr.len() && cr[p] == a as u16;
                    let q = choose|q: int| 0 <= q < cr.len() && cr[q] == b as u16;
                    assert(cr[p] == a && cr[q] == b);
                }
            }
        }
    }
}

/// The graph of the rooms linked through clusters of doorways.
pub open spec fn room_links(nb: Seq<[u16; 4]>, door: Seq<bool>, ids: Seq<u16>) -> spec_fn(int, int) -> bool {
    |a: int, b: int| room_link(nb, door, ids, a, b)
}

/// The board and the room map agree, with the rooms described by
/// `rooms_cover`.
pub open spec fn rooms_fit(cb: &CompiledBoard, rooms: &RoomMap) -> bool {
    &&& rooms.is_doorway@.len() == cb.cell_count
    &&& rooms_cover(rooms.is_doorway@, rooms.room_id@, rooms.room_count as int)
}

/// On a symmetric board the adjacency lists are the room links.
pub proof fn lemma_lists_are_links(cb: &CompiledBoard, rooms: &RoomMap, adj: Seq<Vec<u16>>)
    requires
        cb.wf(),
        rooms_fit(cb, rooms),
        nbrs_symmetric(cb.nbrs()),
        lists_ok(adj, rooms.room_count as int),
        forall|a: int, b: int|
            0 <= a < rooms.room_count && 0 <= b < rooms.room_count ==> (#[trigger] adj[a]@.contains(b as u16) <==> room_link(
                cb.nbrs(),
                rooms.is_doorway@,
                rooms.room_id@,
                a,
                b,
            )),
    ensures
        lists(adj) == room_links(cb.nbrs(), rooms.is_doorway@, rooms.room_id@),
{
    cb.lemma_wf();
    let nb = cb.nbrs();
    let door = rooms.is_doorway@;
    let ids = rooms.room_id@;
    assert forall|a: int, b: int| #[trigger] (lists(adj))(a, b) == (room_links(nb, door, ids))(a, b) by {
        if list_step(adj, a, b) {
            let j = choose|j: int| 0 <= a < adj.len() && 0 <= j < adj[a]@.len() && #[trigger] adj[a]@[j] == b;
            assert(adj[a]@.contains(b as u16));
        }
        if room_link(nb, door, ids, a, b) {
            let s = choose|s: int|
                0 <= s < nb.len() && door[s] && #[trigger] cluster_touches(nb, door, ids, s, a) && cluster_touches(nb, door, ids, s, b);
            lemma_touched_room_in_range(cb, rooms, s, a);
            lemma_touched_room_in_range(cb, rooms, s, b);
            assert(adj[a]@.contains(b as u16));
            let j = choose|j: int| 0 <= j < adj[a]@.len() && adj[a]@[j] == b as u16;
            assert(list_step(adj, a, b));
        }
    }
    assert(lists(adj) =~= room_links(nb, door, ids));
}

/// A room that a cluster touches is a room of the map.
proof fn lemma_touched_room_in_range(cb: &CompiledBoard, rooms: &RoomMap, s: int, r: int)
    requires
        cb.wf(),
        rooms_fit(cb, rooms),
        0 <= s < cb.cell_count,
        rooms.is_doorway@[s],
        cluster_touches(cb.nbrs(), rooms.is_doorway@, rooms.room_id@, s, r),
    ensures
        0 <= r < rooms.room_count,
{
    cb.lemma_wf();
    let nb = cb.nbrs();
    let door = rooms.is_doorway@;
    let ids = rooms.room_id@;
    let y = choose|y: int| #[trigger] reachable(door_steps(nb, door), s, y) && touches(nb, ids, y, r);
    lemma_door_reach(nb, door, s, y);
    let d = choose|d: int| 0 <= d < 4 && nb[y]@[d] != INVALID_CELL && #[trigger] ids[nb[y]@[d] as int] == r && r != NO_ROOM;
    let x = nb[y]@[d] as int;
    assert(0 <= x < cb.cell_count);
    assert(!door[x]);
}

} // verus!
