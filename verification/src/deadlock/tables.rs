use vstd::prelude::*;

use crate::bits::{bit, lemma_bit_or, lemma_bit_zero};
use crate::compiled_board::{direction_at, nbrs_ok, CompiledBoard, INVALID_CELL};
use crate::reachability::{contains_cell, has_cell, sorted_cells};
use crate::sorting::{cells_sorted, sort_cells};
use crate::topology::BoardTopology;
use std::collections::VecDeque;

verus! {

broadcast use vstd::std_specs::vec::group_vec_axioms;

/// The largest zone the table enumerates.
pub const MAX_ZONE_CELLS: usize = 6;

/// How many of the bits below `n` are set in `mask`.
pub open spec fn bits_set(mask: u64, n: int) -> nat
    decreases n,
{
    if n <= 0 {
        0
    } else {
        bits_set(mask, n - 1) + if bit(mask, n - 1) {
            1nat
        } else {
            0nat
        }
    }
}

/// A box on `cell` can be pushed onto no goal at all.
pub open spec fn goalless(cb: &CompiledBoard, cell: int) -> bool {
    forall|g: int| 0 <= g < cb.goal_cells@.len() ==> #[trigger] cb.push_dists(g)[cell] == INVALID_CELL
}

/// Boxes on the zone cells chosen by `mask` cannot all be solved: more boxes
/// than goals, or a box on a cell from which it reaches no goal.
pub open spec fn stuck_config(cb: &CompiledBoard, zone: Seq<u16>, mask: u64) -> bool {
    ||| bits_set(mask, zone.len() as int) > cb.goal_cells@.len()
    ||| exists|b: int| 0 <= b < zone.len() && bit(mask, b) && goalless(cb, #[trigger] zone[b] as int)
}

/// The occupation mask of a zone: bit `b` is set exactly when a box stands
/// on zone cell `b`.
pub open spec fn occupation(zone: Seq<u16>, boxes: Seq<(u16, u8)>, mask: u64) -> bool {
    &&& forall|b: int| 0 <= b < zone.len() ==> (#[trigger] bit(mask, b) <==> has_cell(boxes, zone[b] as int))
    &&& forall|b: int| zone.len() <= b < 64 ==> !#[trigger] bit(mask, b)
}

/// The occupation mask of the first `k` zone cells: bit `b` set when a box
/// stands on zone cell `b`.
pub open spec fn occupation_mask(zone: Seq<u16>, boxes: Seq<(u16, u8)>, k: int) -> u64
    decreases k,
{
    if k <= 0 {
        0
    } else {
        let m = occupation_mask(zone, boxes, k - 1);
        if has_cell(boxes, zone[k - 1] as int) {
            m | (1u64 << ((k - 1) as u64))
        } else {
            m
        }
    }
}

/// A small region of cells with the box configurations in it that can never
/// be solved, as occupation masks.
struct DeadZone {
    cells: Vec<u16>,
    deadlocked_masks: Vec<u64>,
}

/// Precomputed deadlock patterns: small zones grown from corners along the
/// walls, each with the box configurations in it that cannot be solved.
pub struct DeadlockTable {
    zones: Vec<DeadZone>,
}

impl DeadlockTable {
    /// No zone holds more than `MAX_ZONE_CELLS` cells, so every occupation
    /// mask fits in a `u64`.
    #[verifier::type_invariant]
    spec fn zones_fit(&self) -> bool {
        forall|z: int| 0 <= z < self.zones@.len() ==> (#[trigger] self.zones@[z]).cells@.len() <= MAX_ZONE_CELLS
    }
}

/// `zone` is a valid zone of the board and `masks` are exactly its stuck
/// configurations.
spec fn zone_ok(cb: &CompiledBoard, zone: Seq<u16>, masks: Seq<u64>) -> bool {
    &&& 2 <= zone.len() <= MAX_ZONE_CELLS
    &&& forall|b: int| 0 <= b < zone.len() ==> (#[trigger] zone[b]) < cb.cell_count
    &&& forall|m: u64| #[trigger] masks.contains(m) <==> (1 <= m < (1u64 << (zone.len() as u64)) && stuck_config(cb, zone, m))
}

impl DeadlockTable {
    /// Every zone of the table is a valid zone of `cb` with exactly its stuck
    /// configurations.
    pub closed spec fn wf(&self, cb: &CompiledBoard) -> bool {
        forall|z: int| 0 <= z < self.zones@.len() ==> zone_ok(cb, (#[trigger] self.zones@[z]).cells@, self.zones@[z].deadlocked_masks@)
    }

    /// Every zone of the table holds a corner of `topo` that holds no goal.
    pub closed spec fn grown_from_corners(&self, topo: &BoardTopology) -> bool {
        forall|z: int| 0 <= z < self.zones@.len() ==> holds_corner(topo, (#[trigger] self.zones@[z]).cells@)
    }

    /// The boxes fill one of the table's stuck configurations exactly within
    /// its zone.
    pub closed spec fn matches(&self, boxes: Seq<(u16, u8)>) -> bool {
        exists|z: int|
            0 <= z < self.zones@.len() && occupation_mask((#[trigger] self.zones@[z]).cells@, boxes, self.zones@[z].cells@.len() as int) != 0
                && self.zones@[z].deadlocked_masks@.contains(occupation_mask(self.zones@[z].cells@, boxes, self.zones@[z].cells@.len() as int))
    }
}

/// Some cell of `cells` is a corner of `topo` that holds no goal.
pub open spec fn holds_corner(topo: &BoardTopology, cells: Seq<u16>) -> bool {
    exists|i: int| 0 <= i < cells.len() && topo.corner_cells@[#[trigger] cells[i] as int]
}

/// The occupation mask describes the boxes on the zone bit by bit.
pub proof fn lemma_occupation(zone: Seq<u16>, boxes: Seq<(u16, u8)>, k: int)
    requires
        0 <= k <= zone.len() <= 63,
    ensures
        forall|b: int| 0 <= b < k ==> (#[trigger] bit(occupation_mask(zone, boxes, k), b) <==> has_cell(boxes, zone[b] as int)),
        forall|b: int| k <= b < 64 ==> !#[trigger] bit(occupation_mask(zone, boxes, k), b),
    decreases k,
{
    let m = occupation_mask(zone, boxes, k);
    if k == 0 {
        assert forall|c: int| 0 <= c < 64 implies !#[trigger] bit(0u64, c) by {
            lemma_bit_zero(c as u64);
        }
    } else {
        lemma_occupation(zone, boxes, k - 1);
        let prev = occupation_mask(zone, boxes, k - 1);
        if has_cell(boxes, zone[k - 1] as int) {
            assert forall|c: int| 0 <= c < 64 implies #[trigger] bit(m, c) == (bit(prev, c) || k - 1 == c) by {
                lemma_bit_or(prev, (k - 1) as u64, c as u64);
            }
        }
    }
}

/// The mask of the zone cells occupied by boxes. `box_cells` is sorted by cell.
fn zone_occupation_mask(zone_cells: &Vec<u16>, box_cells: &[(u16, u8)]) -> (mask: u64)
    requires
        zone_cells@.len() <= 63,
        sorted_cells(box_cells@),
    ensures
        mask == occupation_mask(zone_cells@, box_cells@, zone_cells@.len() as int),
{
    let mut mask: u64 = 0;
    let mut b: usize = 0;
    while b < zone_cells.len()
        invariant
            zone_cells@.len() <= 63,
            sorted_cells(box_cells@),
            b <= zone_cells@.len(),
            mask == occupation_mask(zone_cells@, box_cells@, b as int),
        decreases zone_cells@.len() - b,
    {
        if contains_cell(box_cells, zone_cells[b]) {
            mask = mask | (1u64 << b);
        }
        b += 1;
    }
    mask
}

/// Whether `mask` is among `masks`.
fn contains_mask(masks: &Vec<u64>, mask: u64) -> (found: bool)
    ensures
        found == masks@.contains(mask),
{
    let mut i: usize = 0;
    while i < masks.len()
        invariant
            i <= masks@.len(),
            forall|k: int| 0 <= k < i ==> masks@[k] != mask,
        decreases masks@.len() - i,
    {
        if masks[i] == mask {
            proof {
                assert(masks@[i as int] == mask);
            }
            return true;
        }
        i += 1;
    }
    false
}

/// Boxes stuck within `zone`: some box stands on it, and either more boxes
/// stand on it than the board has goals, or one of them stands where no goal
/// can be reached by pushes.
pub open spec fn stuck_in_zone(cb: &CompiledBoard, zone: Seq<u16>, boxes: Seq<(u16, u8)>) -> bool {
    let m = occupation_mask(zone, boxes, zone.len() as int);
    &&& m != 0
    &&& (bits_set(m, zone.len() as int) > cb.goal_cells@.len() || exists|b: int|
        0 <= b < zone.len() && has_cell(boxes, zone[b] as int) && goalless(cb, #[trigger] zone[b] as int))
}

/// With no box, no occupation bit is set.
proof fn lemma_occupation_empty(zone: Seq<u16>, boxes: Seq<(u16, u8)>, k: int)
    requires
        boxes.len() == 0,
    ensures
        occupation_mask(zone, boxes, k) == 0,
    decreases k,
{
    if k > 0 {
        lemma_occupation_empty(zone, boxes, k - 1);
    }
}

impl DeadlockTable {
    /// What a match means: the boxes are stuck within some zone of two to
    /// `MAX_ZONE_CELLS` cells of the board; no boxes never match.
    pub proof fn lemma_match_stuck(&self, cb: &CompiledBoard, topo: &BoardTopology, boxes: Seq<(u16, u8)>)
        requires
            self.wf(cb),
            self.grown_from_corners(topo),
        ensures
            self.matches(boxes) ==> exists|zone: Seq<u16>|
                2 <= zone.len() <= MAX_ZONE_CELLS && (forall|b: int| 0 <= b < zone.len() ==> (#[trigger] zone[b]) < cb.cell_count)
                    && holds_corner(topo, zone) && #[trigger] stuck_in_zone(cb, zone, boxes),
            boxes.len() == 0 ==> !self.matches(boxes),
    {
        if self.matches(boxes) {
            let z = choose|z: int|
                0 <= z < self.zones@.len() && occupation_mask((#[trigger] self.zones@[z]).cells@, boxes, self.zones@[z].cells@.len() as int) != 0
                    && self.zones@[z].deadlocked_masks@.contains(occupation_mask(self.zones@[z].cells@, boxes, self.zones@[z].cells@.len() as int));
            let zone = self.zones@[z].cells@;
            let m = occupation_mask(zone, boxes, zone.len() as int);
            assert(zone_ok(cb, zone, self.zones@[z].deadlocked_masks@));
            assert(stuck_config(cb, zone, m));
            lemma_occupation(zone, boxes, zone.len() as int);
            if !(bits_set(m, zone.len() as int) > cb.goal_cells@.len()) {
                let b = choose|b: int| 0 <= b < zone.len() && bit(m, b) && goalless(cb, #[trigger] zone[b] as int);
                assert(has_cell(boxes, zone[b] as int));
            }
            assert(stuck_in_zone(cb, zone, boxes));
            assert(holds_corner(topo, zone));
        }
        if boxes.len() == 0 {
            assert forall|z: int| 0 <= z < self.zones@.len() implies occupation_mask(
                (#[trigger] self.zones@[z]).cells@,
                boxes,
                self.zones@[z].cells@.len() as int,
            ) == 0 by {
                lemma_occupation_empty(self.zones@[z].cells@, boxes, self.zones@[z].cells@.len() as int);
            }
        }
    }
}

impl DeadlockTable {
    /// Whether the boxes fill one of the table's stuck configurations within
    /// its zone. `box_cells` is sorted by cell.
    pub fn is_deadlocked(&self, box_cells: &[(u16, u8)]) -> (b: bool)
        requires
            sorted_cells(box_cells@),
        ensures
            b == self.matches(box_cells@),
    {
        proof {
            use_type_invariant(self);
        }
        let mut z: usize = 0;
        while z < self.zones.len()
            invariant
                self.zones_fit(),
                sorted_cells(box_cells@),
                z <= self.zones@.len(),
                forall|k: int|
                    0 <= k < z ==> !(occupation_mask((#[trigger] self.zones@[k]).cells@, box_cells@, self.zones@[k].cells@.len() as int) != 0
                        && self.zones@[k].deadlocked_masks@.contains(occupation_mask(self.zones@[k].cells@, box_cells@, self.zones@[k].cells@.len() as int))),
            decreases self.zones@.len() - z,
        {
            let zone = &self.zones[z];
            proof {
                assert(self.zones@[z as int].cells@.len() <= MAX_ZONE_CELLS);
            }
            let mask = zone_occupation_mask(&zone.cells, box_cells);
            if mask != 0 {
                if contains_mask(&zone.deadlocked_masks, mask) {
                    return true;
                }
            }
            z += 1;
        }
        false
    }
}


/// Some side of `cell` is a wall.
pub open spec fn wall_adjacent(nb: Seq<[u16; 4]>, cell: int) -> bool {
    exists|d: int| 0 <= d < 4 && #[trigger] nb[cell]@[d] == INVALID_CELL
}

/// Cell `x` waits in the queue `q`.
spec fn queued(q: Seq<u16>, x: int) -> bool {
    exists|i: int| 0 <= i < q.len() && q[i] == x
}

/// How many entries of `s` are still unset.
spec fn unset(s: Seq<bool>) -> nat
    decreases s.len(),
{
    if s.len() == 0 {
        0
    } else {
        unset(s.drop_last()) + if s.last() {
            0nat
        } else {
            1nat
        }
    }
}

proof fn lemma_unset_mark(s: Seq<bool>, i: int)
    requires
        0 <= i < s.len(),
        !s[i],
    ensures
        unset(s.update(i, true)) + 1 == unset(s),
    decreases s.len(),
{
    if i < s.len() - 1 {
        lemma_unset_mark(s.drop_last(), i);
        assert(s.update(i, true).drop_last() =~= s.drop_last().update(i, true));
    } else {
        assert(s.update(i, true).drop_last() =~= s.drop_last());
    }
}

/// Whether some side of `cell` is a wall.
fn is_wall_adjacent(cb: &CompiledBoard, cell: u16) -> (b: bool)
    requires
        cb.wf(),
        cell < cb.cell_count,
    ensures
        b == wall_adjacent(cb.nbrs(), cell as int),
{
    let mut k: usize = 0;
    while k < 4
        invariant
            cb.wf(),
            cell < cb.cell_count,
            k <= 4,
            forall|d: int| 0 <= d < k ==> #[trigger] cb.nbrs()[cell as int]@[d] != INVALID_CELL,
        decreases 4 - k,
    {
        let dir = direction_at(k);
        if cb.neighbor(cell, dir) == INVALID_CELL {
            return true;
        }
        k += 1;
    }
    false
}

/// Grows a zone of at most `MAX_ZONE_CELLS` cells breadth-first from
/// `start`, entering only cells next to a wall or dead; sorted.
fn grow_zone(cb: &CompiledBoard, topo: &BoardTopology, start: u16) -> (zone: Vec<u16>)
    requires
        cb.wf(),
        start < cb.cell_count,
        topo.dead_cells@.len() == cb.cell_count,
    ensures
        1 <= zone@.len() <= MAX_ZONE_CELLS,
        zone@.contains(start),
        cells_sorted(zone@),
        forall|i: int|
            0 <= i < zone@.len() ==> (#[trigger] zone@[i]) < cb.cell_count && (zone@[i] == start || wall_adjacent(
                cb.nbrs(),
                zone@[i] as int,
            ) || topo.dead_cells@[zone@[i] as int]),
{
    proof {
        cb.lemma_wf();
    }
    let ghost nb = cb.nbrs();
    let ghost n = cb.cell_count as int;
    let mut visited: Vec<bool> = vec![false; cb.cell_count as usize];
    let mut zone: Vec<u16> = Vec::new();
    let mut queue: VecDeque<u16> = VecDeque::new();
    proof {
        lemma_unset_mark(visited@, start as int);
    }
    visited.set(start as usize, true);
    zone.push(start);
    queue.push_back(start);
    loop
        invariant
            cb.wf(),
            nb == cb.nbrs(),
            n == cb.cell_count,
            nbrs_ok(nb, n),
            topo.dead_cells@.len() == n,
            start < n,
            visited@.len() == n,
            1 <= zone@.len() <= MAX_ZONE_CELLS,
            zone@[0] == start,
            forall|i: int| 0 <= i < queue@.len() ==> (#[trigger] queue@[i]) < n,
            forall|i: int|
                0 <= i < zone@.len() ==> (#[trigger] zone@[i]) < n && (zone@[i] == start || wall_adjacent(nb, zone@[i] as int)
                    || topo.dead_cells@[zone@[i] as int]),
        decreases 2 * unset(visited@) + queue@.len(),
    {
        let ghost measure = 2 * unset(visited@) + queue@.len();
        let ghost q0 = queue@;
        match queue.pop_front() {
            None => {
                break;
            },
            Some(cell) => {
                proof {
                    assert(q0[0] == cell);
                    assert(queue@ =~= q0.drop_first());
                }
                if zone.len() >= MAX_ZONE_CELLS {
                    break;
                }
                let mut k: usize = 0;
                let mut full = false;
                while k < 4
                    invariant_except_break
                        !full,
                        zone@.len() < MAX_ZONE_CELLS,
                    invariant
                        cb.wf(),
                        nb == cb.nbrs(),
                        n == cb.cell_count,
                        nbrs_ok(nb, n),
                        topo.dead_cells@.len() == n,
                        start < n,
                        cell < n,
                        visited@.len() == n,
                        k <= 4,
                        1 <= zone@.len() <= MAX_ZONE_CELLS,
                        zone@[0] == start,
                        2 * unset(visited@) + queue@.len() < measure,
                        forall|i: int| 0 <= i < queue@.len() ==> (#[trigger] queue@[i]) < n,
                        forall|i: int|
                            0 <= i < zone@.len() ==> (#[trigger] zone@[i]) < n && (zone@[i] == start || wall_adjacent(nb, zone@[i] as int)
                                || topo.dead_cells@[zone@[i] as int]),
                    ensures
                        2 * unset(visited@) + queue@.len() < measure,
                        1 <= zone@.len() <= MAX_ZONE_CELLS,
                        zone@[0] == start,
                        visited@.len() == n,
                        forall|i: int| 0 <= i < queue@.len() ==> (#[trigger] queue@[i]) < n,
                        forall|i: int|
                            0 <= i < zone@.len() ==> (#[trigger] zone@[i]) < n && (zone@[i] == start || wall_adjacent(nb, zone@[i] as int)
                                || topo.dead_cells@[zone@[i] as int]),
                    decreases 4 - k,
                {
                    let dir = direction_at(k);
                    let next = cb.neighbor(cell, dir);
                    if next != INVALID_CELL && !visited[next as usize] {
                        let wall_adj = is_wall_adjacent(cb, next);
                        if wall_adj || topo.is_dead(next) {
                            proof {
                                lemma_unset_mark(visited@, next as int);
                            }
                            visited.set(next as usize, true);
                            zone.push(next);
                            if zone.len() >= MAX_ZONE_CELLS {
                                full = true;
                                break;
                            }
                            queue.push_back(next);
                        }
                    }
                    k += 1;
                }
            },
        }
    }
    let ghost before = zone@;
    proof {
        assert(before.contains(start)) by {
            assert(before[0] == start);
        }
    }
    sort_cells(&mut zone);
    proof {
        vstd::seq_lib::to_multiset_contains(before, start);
        vstd::seq_lib::to_multiset_contains(zone@, start);
        assert forall|i: int| 0 <= i < zone@.len() implies (#[trigger] zone@[i]) < cb.cell_count && (zone@[i] == start || wall_adjacent(
            cb.nbrs(),
            zone@[i] as int,
        ) || topo.dead_cells@[zone@[i] as int]) by {
            let c = zone@[i];
            assert(zone@.contains(c));
            vstd::seq_lib::to_multiset_contains(zone@, c);
            vstd::seq_lib::to_multiset_contains(before, c);
            let j = choose|j: int| 0 <= j < before.len() && before[j] == c;
        }
    }
    zone
}

/// The stuck configurations of a zone: every non-empty mask whose boxes
/// outnumber the goals or put a box where it reaches no goal, in increasing
/// order.
fn compute_deadlocked_masks(cb: &CompiledBoard, zone_cells: &Vec<u16>) -> (masks: Vec<u64>)
    requires
        cb.wf(),
        zone_cells@.len() <= 63,
        forall|b: int| 0 <= b < zone_cells@.len() ==> (#[trigger] zone_cells@[b]) < cb.cell_count,
    ensures
        forall|m: u64|
            #[trigger] masks@.contains(m) <==> (1 <= m < (1u64 << (zone_cells@.len() as u64)) && stuck_config(cb, zone_cells@, m)),
{
    let n = zone_cells.len();
    let ghost zone = zone_cells@;
    let mut deadlocked: Vec<u64> = Vec::new();
    let limit: u64 = 1u64 << n;
    let mut mask: u64 = 1;
    proof {
        assert(1u64 << (n as u64) >= 1) by (bit_vector)
            requires
                n <= 63,
        ;
    }
    while mask < limit
        invariant
            cb.wf(),
            zone == zone_cells@,
            n == zone.len(),
            n <= 63,
            limit == 1u64 << (n as u64),
            forall|b: int| 0 <= b < n ==> (#[trigger] zone[b]) < cb.cell_count,
            1 <= mask <= limit,
            forall|m: u64| #[trigger] deadlocked@.contains(m) <==> (1 <= m < mask && stuck_config(cb, zone, m)),
        decreases limit - mask,
    {
        let mut box_count: usize = 0;
        let mut b: usize = 0;
        while b < n
            invariant
                n <= 63,
                b <= n,
                box_count == bits_set(mask, b as int),
                box_count <= b,
            decreases n - b,
        {
            if mask & (1u64 << b) != 0 {
                box_count += 1;
            }
            b += 1;
        }
        let mut stuck = box_count > cb.goal_cells.len();
        if !stuck {
            let mut b: usize = 0;
            while b < n
                invariant
                    cb.wf(),
                    zone == zone_cells@,
                    n == zone.len(),
                    n <= 63,
                    forall|c: int| 0 <= c < n ==> (#[trigger] zone[c]) < cb.cell_count,
                    b <= n,
                    stuck == exists|c: int| 0 <= c < b && bit(mask, c) && goalless(cb, #[trigger] zone[c] as int),
                decreases n - b,
            {
                if mask & (1u64 << b) != 0 {
                    let cell = zone_cells[b];
                    let mut can_reach_goal = false;
                    let mut gi: usize = 0;
                    while gi < cb.goal_cells.len()
                        invariant
                            cb.wf(),
                            cell < cb.cell_count,
                            gi <= cb.goal_cells@.len(),
                            can_reach_goal == exists|g: int| 0 <= g < gi && #[trigger] cb.push_dists(g)[cell as int] != INVALID_CELL,
                        decreases cb.goal_cells@.len() - gi,
                    {
                        if cb.reverse_push_distance(gi, cell) < 65535 {
                            can_reach_goal = true;
                        }
                        gi += 1;
                    }
                    if !can_reach_goal {
                        proof {
                            assert(goalless(cb, zone[b as int] as int));
                        }
                        stuck = true;
                    } else {
                        proof {
                            let g = choose|g: int| 0 <= g < cb.goal_cells@.len() && #[trigger] cb.push_dists(g)[cell as int] != INVALID_CELL;
                            assert(!goalless(cb, zone[b as int] as int));
                        }
                    }
                }
                b += 1;
            }
        }
        proof {
            assert(stuck == stuck_config(cb, zone, mask));
        }
        let ghost before = deadlocked@;
        if stuck {
            deadlocked.push(mask);
        }
        proof {
            assert forall|m: u64| #[trigger] deadlocked@.contains(m) <==> (1 <= m < mask + 1 && stuck_config(cb, zone, m)) by {
                if stuck {
                    assert(deadlocked@ == before.push(mask));
                    if m == mask {
                        assert(deadlocked@[deadlocked@.len() - 1] == mask);
                    } else {
                        if deadlocked@.contains(m) {
                            let k = choose|k: int| 0 <= k < deadlocked@.len() && deadlocked@[k] == m;
                            assert(before[k] == m);
                        }
                        if before.contains(m) {
                            let k = choose|k: int| 0 <= k < before.len() && before[k] == m;
                            assert(deadlocked@[k] == m);
                        }
                    }
                } else {
                    assert(deadlocked@ == before);
                    if m == mask {
                        assert(!before.contains(m));
                    }
                }
            }
        }
        mask += 1;
    }
    deadlocked
}

impl DeadlockTable {
    /// Builds the table: a zone from every corner cell, kept when it has 2
    /// to `MAX_ZONE_CELLS` cells and some stuck configuration.
    pub fn build(cb: &CompiledBoard, topo: &BoardTopology) -> (table: DeadlockTable)
        requires
            cb.wf(),
            topo.dead_cells@.len() == cb.cell_count,
            topo.corner_cells@.len() == cb.cell_count,
        ensures
            table.wf(cb),
            table.grown_from_corners(topo),
    {
        let mut zones: Vec<DeadZone> = Vec::new();
        let mut cell: u16 = 0;
        while cell < cb.cell_count
            invariant
                cb.wf(),
                topo.dead_cells@.len() == cb.cell_count,
                topo.corner_cells@.len() == cb.cell_count,
                cell <= cb.cell_count,
                forall|z: int| 0 <= z < zones@.len() ==> zone_ok(cb, (#[trigger] zones@[z]).cells@, zones@[z].deadlocked_masks@),
                forall|z: int| 0 <= z < zones@.len() ==> holds_corner(topo, (#[trigger] zones@[z]).cells@),
            decreases cb.cell_count - cell,
        {
            if topo.is_corner(cell) {
                let zone_cells = grow_zone(cb, topo, cell);
                if zone_cells.len() >= 2 && zone_cells.len() <= MAX_ZONE_CELLS {
                    let deadlocked_masks = compute_deadlocked_masks(cb, &zone_cells);
                    if deadlocked_masks.len() > 0 {
                        let ghost zb = zones@;
                        zones.push(DeadZone { cells: zone_cells, deadlocked_masks });
                        proof {
                            assert forall|z: int| 0 <= z < zones@.len() implies zone_ok(cb, (#[trigger] zones@[z]).cells@, zones@[z].deadlocked_masks@) by {
                                if z < zb.len() {
                                    assert(zones@[z] == zb[z]);
                                }
                            }
                            assert forall|z: int| 0 <= z < zones@.len() implies holds_corner(topo, (#[trigger] zones@[z]).cells@) by {
                                if z < zb.len() {
                                    assert(zones@[z] == zb[z]);
                                } else {
                                    let i = choose|i: int| 0 <= i < zones@[z].cells@.len() && zones@[z].cells@[i] == cell;
                                    assert(topo.corner_cells@[zones@[z].cells@[i] as int]);
                                }
                            }
                        }
                    }
                }
            }
            cell += 1;
        }
        DeadlockTable { zones }
    }
}

} // verus!
