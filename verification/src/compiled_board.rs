use vstd::prelude::*;

use crate::bfs::{entry_sum, in_queue, lemma_all_unset, lemma_set_count_le, lemma_set_count_update, set_count};
use crate::board::ParsedBoard;
use crate::graph::{lemma_closed_bound, lemma_reaches_self, lemma_reaches_step, reachable, reaches_in, shortest};
use crate::position::{lemma_offset_opposite_roundtrip, spec_index, spec_offset, spec_opposite, Direction, Position};
use crate::types::{BoxEntity, Goal, Label};
use rustc_hash::{FxBuildHasher, FxHashSet};
use std::collections::VecDeque;

verus! {

broadcast use vstd::std_specs::vec::group_vec_axioms;

/// The cell id that stands for "no cell" (a wall or the outside).
pub const INVALID_CELL: u16 = 65535;

// ----------------------------------------------------------------------
// The cell graph.
// ----------------------------------------------------------------------

/// Every neighbour entry of the `n` cells is a cell or `INVALID_CELL`.
pub open spec fn nbrs_ok(nbrs: Seq<[u16; 4]>, n: int) -> bool {
    &&& nbrs.len() == n
    &&& n <= INVALID_CELL
    &&& forall|c: int, d: int|
        0 <= c < n && 0 <= d < 4 ==> (#[trigger] nbrs[c]@[d]) < n || nbrs[c]@[d] == INVALID_CELL
}

/// A box on cell `x` can be pulled onto the neighbouring cell `y`: the puller
/// stands beyond `y` in the same direction, on a cell too.
pub open spec fn pull_step(nbrs: Seq<[u16; 4]>, x: int, y: int) -> bool {
    exists|d: int|
        0 <= d < 4 && 0 <= x < nbrs.len() && 0 <= y < nbrs.len() && #[trigger] nbrs[x]@[d] == y
            && nbrs[y]@[d] != INVALID_CELL
}

/// The pull graph of a neighbour table.
pub open spec fn pulls(nbrs: Seq<[u16; 4]>) -> spec_fn(int, int) -> bool {
    |x: int, y: int| pull_step(nbrs, x, y)
}

/// Breadth-first search backwards from `goal_cell`: for every cell, the least
/// number of pushes that bring a box from it onto the goal, or `u16::MAX`.
fn bfs_reverse_push(cell_count: u16, neighbors: &Vec<[u16; 4]>, goal_cell: u16) -> (dist: Vec<u16>)
    requires
        nbrs_ok(neighbors@, cell_count as int),
        goal_cell < cell_count,
    ensures
        dist@.len() == cell_count,
        shortest(pulls(neighbors@), goal_cell as int, dist@, cell_count as int, INVALID_CELL as int),
{
    let ghost nb = neighbors@;
    let ghost n = cell_count as int;
    let ghost step = pulls(nb);
    let mut dist: Vec<u16> = vec![65535u16; cell_count as usize];
    let mut queue: VecDeque<u16> = VecDeque::new();
    proof {
        lemma_all_unset(dist@);
        lemma_set_count_update(dist@, goal_cell as int, 0);
        lemma_reaches_self(step, goal_cell as int);
    }
    dist.set(goal_cell as usize, 0);
    queue.push_back(goal_cell);
    proof {
        assert(queue@[0] == goal_cell);
        assert(in_queue(queue@, goal_cell as int));
        assert forall|x: int| 0 <= x < n && x != goal_cell implies #[trigger] dist@[x] == INVALID_CELL by {}
    }
    loop
        invariant
            nb == neighbors@,
            n == cell_count as int,
            step == pulls(nb),
            nbrs_ok(nb, n),
            goal_cell < n,
            dist@.len() == n,
            dist@[goal_cell as int] == 0,
            forall|i: int| 0 <= i < queue@.len() ==> (#[trigger] queue@[i]) < n && dist@[queue@[i] as int] != INVALID_CELL,
            forall|x: int|
                0 <= x < n && (#[trigger] dist@[x]) != INVALID_CELL ==> reaches_in(step, goal_cell as int, x, dist@[x] as nat),
            forall|x: int| 0 <= x < n && (#[trigger] dist@[x]) != INVALID_CELL ==> dist@[x] < set_count(dist@),
            forall|x: int, y: int|
                0 <= x < n && dist@[x] != INVALID_CELL && !in_queue(queue@, x) && #[trigger] pull_step(nb, x, y)
                    ==> dist@[y] != INVALID_CELL && dist@[y] <= dist@[x] + 1,
        ensures
            queue@.len() == 0,
        decreases 2 * entry_sum(dist@) + queue@.len(),
    {
        let ghost measure = 2 * entry_sum(dist@) + queue@.len();
        let ghost q0 = queue@;
        match queue.pop_front() {
            None => {
                break;
            },
            Some(cell) => {
                proof {
                    assert(q0[0] == cell);
                    assert(queue@ =~= q0.drop_first());
                    assert forall|x: int| x != cell && !in_queue(queue@, x) implies !in_queue(q0, x) by {
                        if in_queue(q0, x) {
                            let i = choose|i: int| 0 <= i < q0.len() && q0[i] == x;
                            assert(i > 0);
                            assert(queue@[i - 1] == x);
                        }
                    }
                    assert(in_queue(q0, cell as int));
                }
                let d = dist[cell as usize];
                proof {
                    lemma_set_count_le(dist@);
                }
                let mut k: usize = 0;
                while k < 4
                    invariant
                        nb == neighbors@,
                        n == cell_count as int,
                        step == pulls(nb),
                        nbrs_ok(nb, n),
                        goal_cell < n,
                        cell < n,
                        0 <= k <= 4,
                        d == dist@[cell as int],
                        d != INVALID_CELL,
                        dist@.len() == n,
                        dist@[goal_cell as int] == 0,
                        2 * entry_sum(dist@) + queue@.len() < measure,
                        forall|i: int| 0 <= i < queue@.len() ==> (#[trigger] queue@[i]) < n && dist@[queue@[i] as int] != INVALID_CELL,
                        forall|x: int|
                            0 <= x < n && (#[trigger] dist@[x]) != INVALID_CELL ==> reaches_in(step, goal_cell as int, x, dist@[x] as nat),
                        forall|x: int| 0 <= x < n && (#[trigger] dist@[x]) != INVALID_CELL ==> dist@[x] < set_count(dist@),
                        forall|x: int, y: int|
                            0 <= x < n && x != cell && dist@[x] != INVALID_CELL && !in_queue(queue@, x) && #[trigger] pull_step(nb, x, y)
                                ==> dist@[y] != INVALID_CELL && dist@[y] <= dist@[x] + 1,
                        forall|j: int|
                            0 <= j < k && (#[trigger] nb[cell as int]@[j]) != INVALID_CELL && nb[nb[cell as int]@[j] as int]@[j]
                                != INVALID_CELL ==> dist@[nb[cell as int]@[j] as int] != INVALID_CELL && dist@[nb[cell as int]@[j] as int]
                                <= d + 1,
                    decreases 4 - k,
                {
                    let box_from = neighbors[cell as usize][k];
                    if box_from != INVALID_CELL {
                        let keeper_at = neighbors[box_from as usize][k];
                        if keeper_at != INVALID_CELL {
                            proof {
                                lemma_set_count_le(dist@);
                                if dist@[box_from as int] == INVALID_CELL {
                                    lemma_set_count_update(dist@, box_from as int, 0);
                                    lemma_set_count_le(dist@.update(box_from as int, 0));
                                }
                            }
                            let ghost before0 = dist@;
                            if dist[box_from as usize] > d + 1 {
                                let ghost before = dist@;
                                proof {
                                    assert(pull_step(nb, cell as int, box_from as int));
                                    lemma_reaches_step(step, goal_cell as int, cell as int, box_from as int, d as nat);
                                    lemma_set_count_update(dist@, box_from as int, (d + 1) as u16);
                                }
                                dist.set(box_from as usize, d + 1);
                                let ghost qb = queue@;
                                queue.push_back(box_from);
                                proof {
                                    assert forall|x: int|
                                        0 <= x < n && (#[trigger] dist@[x]) != INVALID_CELL implies reaches_in(
                                        step,
                                        goal_cell as int,
                                        x,
                                        dist@[x] as nat,
                                    ) by {
                                        if x != box_from {
                                            assert(dist@[x] == before[x]);
                                        }
                                    }
                                    assert forall|x: int|
                                        0 <= x < n && (#[trigger] dist@[x]) != INVALID_CELL implies dist@[x] < set_count(
                                        dist@,
                                    ) by {
                                        if x != box_from {
                                            assert(dist@[x] == before[x]);
                                        }
                                    }
                                    assert forall|x: int, y: int|
                                        0 <= x < n && x != cell && dist@[x] != INVALID_CELL && !in_queue(queue@, x)
                                            && #[trigger] pull_step(nb, x, y) implies dist@[y] != INVALID_CELL && dist@[y]
                                        <= dist@[x] + 1 by {
                                        if x != box_from {
                                            assert(dist@[x] == before[x]);
                                            if y != box_from {
                                                assert(dist@[y] == before[y]);
                                            }
                                            if in_queue(qb, x) {
                                                let i = choose|i: int| 0 <= i < qb.len() && qb[i] == x;
                                                assert(queue@[i] == x);
                                            }
                                            assert(!in_queue(qb, x));
                                            assert(before[y] != INVALID_CELL && before[y] <= before[x] + 1);
                                        } else {
                                            assert(queue@[queue@.len() - 1] == x);
                                        }
                                    }
                                    assert forall|i: int| 0 <= i < queue@.len() implies (#[trigger] queue@[i]) < n
                                        && dist@[queue@[i] as int] != INVALID_CELL by {
                                        if i < queue@.len() - 1 {
                                            assert(queue@[i] == queue@.drop_last()[i]);
                                        }
                                    }
                                    assert forall|j: int|
                                        0 <= j < k && (#[trigger] nb[cell as int]@[j]) != INVALID_CELL && nb[nb[cell as int]@[j] as int]@[j]
                                            != INVALID_CELL implies dist@[nb[cell as int]@[j] as int] != INVALID_CELL && dist@[nb[cell as int]@[j] as int]
                                            <= d + 1 by {
                                        let y = nb[cell as int]@[j] as int;
                                        if y != box_from {
                                            assert(dist@[y] == before[y]);
                                        }
                                    }
                                }
                            }
                        }
                    }
                    k += 1;
                }
                proof {
                    assert forall|x: int, y: int|
                        0 <= x < n && dist@[x] != INVALID_CELL && !in_queue(queue@, x) && #[trigger] pull_step(nb, x, y)
                            implies dist@[y] != INVALID_CELL && dist@[y] <= dist@[x] + 1 by {
                        if x == cell {
                            let j = choose|j: int|
                                0 <= j < 4 && 0 <= x < nb.len() && 0 <= y < nb.len() && #[trigger] nb[x]@[j] == y
                                    && nb[y]@[j] != INVALID_CELL;
                            assert(nb[cell as int]@[j] == y);
                        }
                    }
                    lemma_set_count_le(dist@);
                }
            },
        }
    }
    proof {
        let inside = |x: int| 0 <= x < n && dist@[x] != INVALID_CELL;
        let pot = |x: int| dist@[x] as int;
        assert forall|x: int, y: int| inside(x) && #[trigger] step(x, y) implies inside(y) && pot(y) <= pot(x) + 1 by {
            assert(pull_step(nb, x, y));
            assert(!in_queue(queue@, x));
        }
        assert forall|x: int| 0 <= x < n implies {
            &&& (#[trigger] dist@[x] == INVALID_CELL <==> !reachable(step, goal_cell as int, x))
            &&& dist@[x] != INVALID_CELL ==> reaches_in(step, goal_cell as int, x, dist@[x] as nat) && forall|k: nat|
                k < dist@[x] ==> !#[trigger] reaches_in(step, goal_cell as int, x, k)
        } by {
            if reachable(step, goal_cell as int, x) {
                let k = choose|k: nat| #[trigger] reaches_in(step, goal_cell as int, x, k);
                lemma_closed_bound(step, inside, pot, goal_cell as int, x, k);
            }
            if dist@[x] != INVALID_CELL {
                assert(reaches_in(step, goal_cell as int, x, dist@[x] as nat));
                assert forall|k: nat| k < dist@[x] implies !#[trigger] reaches_in(step, goal_cell as int, x, k) by {
                    if reaches_in(step, goal_cell as int, x, k) {
                        lemma_closed_bound(step, inside, pot, goal_cell as int, x, k);
                    }
                }
            }
        }
    }
    dist
}


// ----------------------------------------------------------------------
// The board, compiled to dense cell ids.
// ----------------------------------------------------------------------

#[verifier::external_type_specification]
#[verifier::external_body]
pub struct ExFxBuildHasher(FxBuildHasher);

/// Adds `pos` to a position set (`HashSet::insert` of std with the hasher of
/// rustc-hash). Claimed: afterwards the set holds exactly its former members
/// and `pos`; the Fx hasher is deterministic and `Position` compares and
/// hashes by its two coordinates.
#[verifier::external_body]
fn insert_position(set: &mut FxHashSet<Position>, pos: Position)
    ensures
        final(set)@ == old(set)@.insert(pos),
{
    set.insert(pos);
}

/// `pos` passes the bounds test of the compiled board: both coordinates are
/// non-negative and below the height and width taken as `i16`.
pub open spec fn on_grid(pos: Position, width: u16, height: u16) -> bool {
    0 <= pos.row && pos.row < (height as i16) && 0 <= pos.col && pos.col < (width as i16)
}

/// `pos` indexes the grid: within `0..height` and `0..width`.
pub open spec fn in_bounds(pos: Position, width: u16, height: u16) -> bool {
    0 <= pos.row < height && 0 <= pos.col < width
}

/// The id of the floor cell at `pos`: its last index in `floor`, or
/// `INVALID_CELL` when `pos` is not a floor cell.
pub open spec fn floor_index(floor: Seq<Position>, pos: Position) -> int
    decreases floor.len(),
{
    if floor.len() == 0 {
        INVALID_CELL as int
    } else if floor.last() == pos {
        floor.len() - 1
    } else {
        floor_index(floor.drop_last(), pos)
    }
}

/// The cell id the compiled board gives to `pos`.
pub open spec fn cell_of(floor: Seq<Position>, width: u16, height: u16, pos: Position) -> int {
    if on_grid(pos, width, height) {
        floor_index(floor, pos)
    } else {
        INVALID_CELL as int
    }
}

/// The label group of the last goal on cell `c`, if any.
pub open spec fn goal_group(goal_cells: Seq<(u16, Label)>, c: int) -> Option<u8>
    decreases goal_cells.len(),
{
    if goal_cells.len() == 0 {
        None
    } else if goal_cells.last().0 == c {
        Some(goal_cells.last().1.0)
    } else {
        goal_group(goal_cells.drop_last(), c)
    }
}

/// What a board must satisfy to be compiled: at most `u16::MAX` floor cells,
/// floor cells inside the grid with room for a step in every direction, and
/// robot, boxes and goals inside the grid, every goal on a floor cell.
pub open spec fn compilable(board: ParsedBoard) -> bool {
    let floor = board.floor@;
    &&& floor.len() <= INVALID_CELL
    &&& forall|i: int|
        0 <= i < floor.len() ==> in_bounds(#[trigger] floor[i], board.width, board.height) && floor[i].row
            < i16::MAX && floor[i].col < i16::MAX
    &&& in_bounds(board.initial_robot, board.width, board.height)
    &&& forall|i: int|
        0 <= i < board.initial_boxes@.len() ==> in_bounds(
            (#[trigger] board.initial_boxes@[i]).position,
            board.width,
            board.height,
        )
    &&& forall|i: int|
        0 <= i < board.goals@.len() ==> in_bounds((#[trigger] board.goals@[i]).position, board.width, board.height)
            && floor_index(floor, board.goals@[i].position) != INVALID_CELL
}

/// A board compiled to dense cell ids `0..cell_count`, one per floor cell in
/// the order of the board's floor list, with a neighbour table and, for every
/// goal, the least number of pushes from every cell onto it.
#[derive(Debug)]
pub struct CompiledBoard {
    pub cell_count: u16,
    pub positions: Vec<Position>,
    pub cell_index: Vec<Vec<u16>>,
    pub neighbors: Vec<[u16; 4]>,
    pub goal_cells: Vec<(u16, Label)>,
    pub wall_set: FxHashSet<Position>,
    pub width: u16,
    pub height: u16,
    pub robot_cell: u16,
    pub initial_box_cells: Vec<(u16, Label)>,
    pub goal_at: Vec<Option<u8>>,
    pub reverse_push_dist: Vec<u16>,
}

impl CompiledBoard {
    /// The position of cell `c`.
    pub open spec fn position_of(&self, c: int) -> Position {
        self.positions@[c]
    }

    /// The floor list the board was compiled from.
    pub open spec fn floor(&self) -> Seq<Position> {
        self.positions@
    }

    /// The neighbour table: entry `d` of cell `c` is the cell one step away in
    /// the direction of index `d`, or `INVALID_CELL`.
    pub open spec fn nbrs(&self) -> Seq<[u16; 4]> {
        self.neighbors@
    }

    /// The label group of the goal on cell `c`, if there is one.
    pub open spec fn goal_at_cell(&self, c: int) -> Option<u8> {
        self.goal_at@[c]
    }

    /// The least pushes from every cell onto goal `g` (`u16::MAX`: none).
    pub open spec fn push_dists(&self, g: int) -> Seq<u16> {
        self.reverse_push_dist@.subrange(g * self.cell_count, (g + 1) * self.cell_count)
    }

    /// The neighbour of cell `c` in direction `d`.
    pub open spec fn nbr(&self, c: int, d: Direction) -> int {
        self.nbrs()[c]@[spec_index(d)] as int
    }

    /// The cell at `pos`, or `INVALID_CELL`.
    pub open spec fn cell_at(&self, pos: Position) -> int {
        cell_of(self.floor(), self.width, self.height, pos)
    }

    /// The internal tables agree with the floor list and with each other.
    pub closed spec fn wf(&self) -> bool {
        let n = self.cell_count as int;
        &&& self.positions@.len() == n
        &&& n <= INVALID_CELL
        &&& forall|c: int|
            0 <= c < n ==> in_bounds(#[trigger] self.positions@[c], self.width, self.height)
                && self.positions@[c].row < i16::MAX && self.positions@[c].col < i16::MAX
        &&& nbrs_ok(self.neighbors@, n)
        &&& self.goal_at@.len() == n
        &&& self.cell_index@.len() == self.height
        &&& forall|r: int| 0 <= r < self.height ==> (#[trigger] self.cell_index@[r])@.len() == self.width
        &&& forall|pos: Position|
            in_bounds(pos, self.width, self.height) ==> #[trigger] self.cell_index@[pos.row as int]@[pos.col as int]
                == floor_index(self.positions@, pos)
        &&& forall|c: int, d: Direction|
            0 <= c < n ==> #[trigger] self.neighbors@[c]@[spec_index(d)] == cell_of(
                self.positions@,
                self.width,
                self.height,
                spec_offset(self.positions@[c], d),
            )
        &&& forall|c: int| 0 <= c < n ==> #[trigger] self.goal_at@[c] == goal_group(self.goal_cells@, c)
        &&& forall|i: int| 0 <= i < self.goal_cells@.len() ==> (#[trigger] self.goal_cells@[i]).0 < n
        &&& self.robot_cell < n || self.robot_cell == INVALID_CELL
        &&& forall|i: int|
            0 <= i < self.initial_box_cells@.len() ==> (#[trigger] self.initial_box_cells@[i]).0 < n
                || self.initial_box_cells@[i].0 == INVALID_CELL
        &&& self.reverse_push_dist@.len() == self.goal_cells@.len() * n
        &&& forall|g: int|
            0 <= g < self.goal_cells@.len() ==> shortest(
                pulls(self.neighbors@),
                self.goal_cells@[g].0 as int,
                #[trigger] self.push_dists(g),
                n,
                INVALID_CELL as int,
            )
    }

    /// The neighbour table of a well-formed board is a table of cells.
    pub proof fn lemma_nbrs_ok(&self)
        requires
            self.wf(),
        ensures
            nbrs_ok(self.nbrs(), self.cell_count as int),
            self.floor().len() == self.cell_count,
    {
    }
}


/// The direction of index `k` in `Direction::ALL`.
pub open spec fn dir_of(k: int) -> Direction {
    if k == 0 {
        Direction::Up
    } else if k == 1 {
        Direction::Down
    } else if k == 2 {
        Direction::Left
    } else {
        Direction::Right
    }
}

/// The direction of index `k`.
pub fn direction_at(k: usize) -> (d: Direction)
    requires
        k < 4,
    ensures
        d == dir_of(k as int),
        spec_index(d) == k,
{
    if k == 0 {
        Direction::Up
    } else if k == 1 {
        Direction::Down
    } else if k == 2 {
        Direction::Left
    } else {
        Direction::Right
    }
}

/// A position that passes the bounds test of the compiled board indexes the grid.
pub proof fn lemma_on_grid_in_bounds(pos: Position, width: u16, height: u16)
    requires
        on_grid(pos, width, height),
    ensures
        in_bounds(pos, width, height),
{
    let r = pos.row;
    let c = pos.col;
    assert(0 <= r && r < (height as i16) ==> (r as int) < (height as int)) by (bit_vector);
    assert(0 <= c && c < (width as i16) ==> (c as int) < (width as int)) by (bit_vector);
}

/// The set of the walls.
fn build_wall_set(walls: &Vec<Position>) -> (set: FxHashSet<Position>)
    ensures
        set@ == walls@.to_set(),
{
    let mut set: FxHashSet<Position> = FxHashSet::default();
    let mut i: usize = 0;
    while i < walls.len()
        invariant
            i <= walls@.len(),
            set@ == walls@.take(i as int).to_set(),
        decreases walls@.len() - i,
    {
        insert_position(&mut set, walls[i]);
        proof {
            assert(walls@.take(i + 1) =~= walls@.take(i as int).push(walls@[i as int]));
            walls@.take(i as int).lemma_push_to_set_commute(walls@[i as int]);
        }
        i += 1;
    }
    proof {
        assert(walls@.take(walls@.len() as int) =~= walls@);
    }
    set
}

/// The grid of cell ids, one row per board row, holding the id of every
/// floor cell and `INVALID_CELL` elsewhere.
fn build_grid(floor: &Vec<Position>, width: u16, height: u16) -> (grid: Vec<Vec<u16>>)
    requires
        floor@.len() <= INVALID_CELL,
        forall|i: int| 0 <= i < floor@.len() ==> in_bounds(#[trigger] floor@[i], width, height),
    ensures
        grid@.len() == height,
        forall|r: int| 0 <= r < height ==> (#[trigger] grid@[r])@.len() == width,
        forall|pos: Position|
            in_bounds(pos, width, height) ==> #[trigger] grid@[pos.row as int]@[pos.col as int] == floor_index(
                floor@,
                pos,
            ),
{
    let mut grid: Vec<Vec<u16>> = Vec::new();
    let mut r: usize = 0;
    while r < height as usize
        invariant
            r <= height,
            grid@.len() == r,
            forall|q: int| 0 <= q < r ==> (#[trigger] grid@[q])@.len() == width && forall|c: int|
                0 <= c < width ==> grid@[q]@[c] == INVALID_CELL,
        decreases height - r,
    {
        let row: Vec<u16> = vec![INVALID_CELL; width as usize];
        grid.push(row);
        r += 1;
    }
    let mut cell_id: u16 = 0;
    let mut i: usize = 0;
    while i < floor.len()
        invariant
            i <= floor@.len(),
            floor@.len() <= INVALID_CELL,
            cell_id == i,
            forall|k: int| 0 <= k < floor@.len() ==> in_bounds(#[trigger] floor@[k], width, height),
            grid@.len() == height,
            forall|q: int| 0 <= q < height ==> (#[trigger] grid@[q])@.len() == width,
            forall|pos: Position|
                in_bounds(pos, width, height) ==> #[trigger] grid@[pos.row as int]@[pos.col as int] == floor_index(
                    floor@.take(i as int),
                    pos,
                ),
        decreases floor@.len() - i,
    {
        let pos = floor[i];
        let ghost before = grid@;
        grid[pos.row as usize][pos.col as usize] = cell_id;
        proof {
            let t = floor@.take(i + 1);
            assert(t.drop_last() =~= floor@.take(i as int));
            assert(t.last() == pos);
            assert forall|q: int| 0 <= q < height implies (#[trigger] grid@[q])@.len() == width by {
                assert(before[q]@.len() == width);
            }
            assert forall|p: Position| in_bounds(p, width, height) implies #[trigger] grid@[p.row as int]@[p.col as int]
                == floor_index(t, p) by {
                if p.row == pos.row && p.col == pos.col {
                    assert(p == pos);
                } else {
                    assert(grid@[p.row as int]@[p.col as int] == before[p.row as int]@[p.col as int]);
                }
            }
        }
        cell_id += 1;
        i += 1;
    }
    proof {
        assert(floor@.take(floor@.len() as int) =~= floor@);
        assert forall|pos: Position| in_bounds(pos, width, height) implies #[trigger] grid@[pos.row as int]@[pos.col as int]
            == floor_index(floor@, pos) by {}
    }
    grid
}

/// A floor index is a cell id or `INVALID_CELL`.
pub proof fn lemma_floor_index_range(floor: Seq<Position>, pos: Position)
    ensures
        floor_index(floor, pos) == INVALID_CELL || 0 <= floor_index(floor, pos) < floor.len(),
        floor_index(floor, pos) != INVALID_CELL ==> floor[floor_index(floor, pos)] == pos,
    decreases floor.len(),
{
    if floor.len() > 0 && floor.last() != pos {
        lemma_floor_index_range(floor.drop_last(), pos);
    }
}

/// The neighbour table: for every cell and direction, the id of the cell one
/// step away, or `INVALID_CELL` off the grid or on a wall.
fn build_neighbors(
    positions: &Vec<Position>,
    grid: &Vec<Vec<u16>>,
    width: u16,
    height: u16,
) -> (nbrs: Vec<[u16; 4]>)
    requires
        positions@.len() <= INVALID_CELL,
        forall|i: int|
            0 <= i < positions@.len() ==> in_bounds(#[trigger] positions@[i], width, height) && positions@[i].row
                < i16::MAX && positions@[i].col < i16::MAX,
        grid@.len() == height,
        forall|r: int| 0 <= r < height ==> (#[trigger] grid@[r])@.len() == width,
        forall|pos: Position|
            in_bounds(pos, width, height) ==> #[trigger] grid@[pos.row as int]@[pos.col as int] == floor_index(
                positions@,
                pos,
            ),
    ensures
        nbrs_ok(nbrs@, positions@.len() as int),
        forall|c: int, d: Direction|
            0 <= c < positions@.len() ==> #[trigger] nbrs@[c]@[spec_index(d)] == cell_of(
                positions@,
                width,
                height,
                spec_offset(positions@[c], d),
            ),
{
    let ghost n = positions@.len() as int;
    let mut nbrs: Vec<[u16; 4]> = Vec::new();
    let mut c: usize = 0;
    while c < positions.len()
        invariant
            n == positions@.len(),
            n <= INVALID_CELL,
            c <= n,
            nbrs@.len() == c,
            forall|i: int|
                0 <= i < n ==> in_bounds(#[trigger] positions@[i], width, height) && positions@[i].row < i16::MAX
                    && positions@[i].col < i16::MAX,
            grid@.len() == height,
            forall|r: int| 0 <= r < height ==> (#[trigger] grid@[r])@.len() == width,
            forall|pos: Position|
                in_bounds(pos, width, height) ==> #[trigger] grid@[pos.row as int]@[pos.col as int] == floor_index(
                    positions@,
                    pos,
                ),
            forall|q: int, k: int|
                0 <= q < c && 0 <= k < 4 ==> #[trigger] nbrs@[q]@[k] == cell_of(
                    positions@,
                    width,
                    height,
                    spec_offset(positions@[q], dir_of(k)),
                ),
        decreases n - c,
    {
        let pos = positions[c];
        let mut row: [u16; 4] = [INVALID_CELL; 4];
        let mut k: usize = 0;
        while k < 4
            invariant
                0 <= k <= 4,
                pos == positions@[c as int],
                in_bounds(pos, width, height),
                pos.row < i16::MAX,
                pos.col < i16::MAX,
                grid@.len() == height,
                forall|r: int| 0 <= r < height ==> (#[trigger] grid@[r])@.len() == width,
                forall|p: Position|
                    in_bounds(p, width, height) ==> #[trigger] grid@[p.row as int]@[p.col as int] == floor_index(
                        positions@,
                        p,
                    ),
                forall|j: int|
                    0 <= j < k ==> #[trigger] row@[j] == cell_of(positions@, width, height, spec_offset(pos, dir_of(j))),
                forall|j: int| k <= j < 4 ==> #[trigger] row@[j] == INVALID_CELL,
            decreases 4 - k,
        {
            let dir = direction_at(k);
            let adj = pos.offset(dir);
            if adj.row >= 0 && adj.row < height as i16 && adj.col >= 0 && adj.col < width as i16 {
                proof {
                    lemma_on_grid_in_bounds(adj, width, height);
                }
                row[k] = grid[adj.row as usize][adj.col as usize];
            }
            k += 1;
        }
        nbrs.push(row);
        c += 1;
    }
    proof {
        assert forall|q: int, d: int| 0 <= q < n && 0 <= d < 4 implies (#[trigger] nbrs@[q]@[d]) < n || nbrs@[q]@[d]
            == INVALID_CELL by {
            lemma_floor_index_range(positions@, spec_offset(positions@[q], dir_of(d)));
        }
        assert forall|q: int, d: Direction| 0 <= q < n implies #[trigger] nbrs@[q]@[spec_index(d)] == cell_of(
            positions@,
            width,
            height,
            spec_offset(positions@[q], d),
        ) by {
            assert(dir_of(spec_index(d)) == d);
        }
    }
    nbrs
}


/// The cell and label of every box, in board order.
fn box_cells_of(boxes: &Vec<BoxEntity>, grid: &Vec<Vec<u16>>, width: u16, height: u16, Ghost(floor): Ghost<Seq<Position>>) -> (out: Vec<(u16, Label)>)
    requires
        forall|i: int| 0 <= i < boxes@.len() ==> in_bounds((#[trigger] boxes@[i]).position, width, height),
        grid@.len() == height,
        forall|r: int| 0 <= r < height ==> (#[trigger] grid@[r])@.len() == width,
        forall|pos: Position|
            in_bounds(pos, width, height) ==> #[trigger] grid@[pos.row as int]@[pos.col as int] == floor_index(floor, pos),
    ensures
        out@.len() == boxes@.len(),
        forall|i: int|
            0 <= i < boxes@.len() ==> (#[trigger] out@[i]).0 == floor_index(floor, boxes@[i].position) && out@[i].1
                == boxes@[i].label,
{
    let mut out: Vec<(u16, Label)> = Vec::new();
    let mut i: usize = 0;
    while i < boxes.len()
        invariant
            i <= boxes@.len(),
            out@.len() == i,
            forall|k: int| 0 <= k < boxes@.len() ==> in_bounds((#[trigger] boxes@[k]).position, width, height),
            grid@.len() == height,
            forall|r: int| 0 <= r < height ==> (#[trigger] grid@[r])@.len() == width,
            forall|pos: Position|
                in_bounds(pos, width, height) ==> #[trigger] grid@[pos.row as int]@[pos.col as int] == floor_index(floor, pos),
            forall|k: int|
                0 <= k < i ==> (#[trigger] out@[k]).0 == floor_index(floor, boxes@[k].position) && out@[k].1
                    == boxes@[k].label,
        decreases boxes@.len() - i,
    {
        let pos = boxes[i].position;
        out.push((grid[pos.row as usize][pos.col as usize], boxes[i].label));
        i += 1;
    }
    out
}

/// The cell and label of every goal, in board order.
fn goal_cells_of(goals: &Vec<Goal>, grid: &Vec<Vec<u16>>, width: u16, height: u16, Ghost(floor): Ghost<Seq<Position>>) -> (out: Vec<(u16, Label)>)
    requires
        forall|i: int| 0 <= i < goals@.len() ==> in_bounds((#[trigger] goals@[i]).position, width, height),
        grid@.len() == height,
        forall|r: int| 0 <= r < height ==> (#[trigger] grid@[r])@.len() == width,
        forall|pos: Position|
            in_bounds(pos, width, height) ==> #[trigger] grid@[pos.row as int]@[pos.col as int] == floor_index(floor, pos),
    ensures
        out@.len() == goals@.len(),
        forall|i: int|
            0 <= i < goals@.len() ==> (#[trigger] out@[i]).0 == floor_index(floor, goals@[i].position) && out@[i].1
                == goals@[i].label,
{
    let mut out: Vec<(u16, Label)> = Vec::new();
    let mut i: usize = 0;
    while i < goals.len()
        invariant
            i <= goals@.len(),
            out@.len() == i,
            forall|k: int| 0 <= k < goals@.len() ==> in_bounds((#[trigger] goals@[k]).position, width, height),
            grid@.len() == height,
            forall|r: int| 0 <= r < height ==> (#[trigger] grid@[r])@.len() == width,
            forall|pos: Position|
                in_bounds(pos, width, height) ==> #[trigger] grid@[pos.row as int]@[pos.col as int] == floor_index(floor, pos),
            forall|k: int|
                0 <= k < i ==> (#[trigger] out@[k]).0 == floor_index(floor, goals@[k].position) && out@[k].1
                    == goals@[k].label,
        decreases goals@.len() - i,
    {
        let pos = goals[i].position;
        out.push((grid[pos.row as usize][pos.col as usize], goals[i].label));
        i += 1;
    }
    out
}

/// For every cell, the label group of the last goal on it.
fn build_goal_at(goal_cells: &Vec<(u16, Label)>, cell_count: u16) -> (goal_at: Vec<Option<u8>>)
    requires
        forall|i: int| 0 <= i < goal_cells@.len() ==> (#[trigger] goal_cells@[i]).0 < cell_count,
    ensures
        goal_at@.len() == cell_count,
        forall|c: int| 0 <= c < cell_count ==> #[trigger] goal_at@[c] == goal_group(goal_cells@, c),
{
    let mut goal_at: Vec<Option<u8>> = vec![None; cell_count as usize];
    let mut i: usize = 0;
    while i < goal_cells.len()
        invariant
            i <= goal_cells@.len(),
            goal_at@.len() == cell_count,
            forall|k: int| 0 <= k < goal_cells@.len() ==> (#[trigger] goal_cells@[k]).0 < cell_count,
            forall|c: int| 0 <= c < cell_count ==> #[trigger] goal_at@[c] == goal_group(goal_cells@.take(i as int), c),
        decreases goal_cells@.len() - i,
    {
        let (cell, label) = goal_cells[i];
        goal_at.set(cell as usize, Some(label.0));
        proof {
            let t = goal_cells@.take(i + 1);
            assert(t.drop_last() =~= goal_cells@.take(i as int));
        }
        i += 1;
    }
    proof {
        assert(goal_cells@.take(goal_cells@.len() as int) =~= goal_cells@);
    }
    goal_at
}

/// `d` starts at entry `g * n` of `all`, for a block of `n` entries.
proof fn lemma_block_bounds(g: int, k: int, n: int)
    requires
        0 <= g < k,
        n >= 0,
    ensures
        0 <= g * n,
        (g + 1) * n <= k * n,
        (g + 1) * n == g * n + n,
{
    assert((g + 1) * n <= k * n) by (nonlinear_arith)
        requires
            g + 1 <= k,
            n >= 0,
    ;
    assert((g + 1) * n == g * n + n) by (nonlinear_arith);
    assert(0 <= g * n) by (nonlinear_arith)
        requires
            g >= 0,
            n >= 0,
    ;
}

impl CompiledBoard {
    /// The push distances of every goal, one block of `cell_count` entries per goal.
    fn compute_reverse_push_distances(cell_count: u16, neighbors: &Vec<[u16; 4]>, goal_cells: &Vec<(u16, Label)>) -> (dist: Vec<u16>)
        requires
            nbrs_ok(neighbors@, cell_count as int),
            forall|i: int| 0 <= i < goal_cells@.len() ==> (#[trigger] goal_cells@[i]).0 < cell_count,
        ensures
            dist@.len() == goal_cells@.len() * cell_count,
            forall|g: int|
                0 <= g < goal_cells@.len() ==> shortest(
                    pulls(neighbors@),
                    goal_cells@[g].0 as int,
                    #[trigger] dist@.subrange(g * cell_count, (g + 1) * cell_count),
                    cell_count as int,
                    INVALID_CELL as int,
                ),
    {
        let ghost n = cell_count as int;
        let mut dist: Vec<u16> = Vec::new();
        let mut g: usize = 0;
        while g < goal_cells.len()
            invariant
                n == cell_count,
                nbrs_ok(neighbors@, n),
                forall|i: int| 0 <= i < goal_cells@.len() ==> (#[trigger] goal_cells@[i]).0 < cell_count,
                g <= goal_cells@.len(),
                dist@.len() == g * n,
                forall|h: int|
                    0 <= h < g ==> shortest(
                        pulls(neighbors@),
                        goal_cells@[h].0 as int,
                        #[trigger] dist@.subrange(h * n, (h + 1) * n),
                        n,
                        INVALID_CELL as int,
                    ),
            decreases goal_cells@.len() - g,
        {
            let (goal_cell, _) = goal_cells[g];
            let block = bfs_reverse_push(cell_count, neighbors, goal_cell);
            let ghost before = dist@;
            dist.extend_from_slice(block.as_slice());
            proof {
                assert(dist@ =~= before + block@);
                assert((g + 1) * n == g * n + n) by (nonlinear_arith);
                assert forall|h: int| 0 <= h < g + 1 implies shortest(
                    pulls(neighbors@),
                    goal_cells@[h].0 as int,
                    #[trigger] dist@.subrange(h * n, (h + 1) * n),
                    n,
                    INVALID_CELL as int,
                ) by {
                    lemma_block_bounds(h, g + 1, n);
                    if h < g {
                        lemma_block_bounds(h, g as int, n);
                        assert(dist@.subrange(h * n, (h + 1) * n) =~= before.subrange(h * n, (h + 1) * n));
                    } else {
                        assert(dist@.subrange(h * n, (h + 1) * n) =~= block@);
                    }
                }
            }
            g += 1;
        }
        dist
    }

    /// Compiles a parsed board: numbers the floor cells in floor order,
    /// records the neighbours of every cell, the cells of robot, boxes and
    /// goals, and for every goal the least pushes from every cell onto it.
    pub fn from_parsed(board: &ParsedBoard) -> (cb: CompiledBoard)
        requires
            compilable(*board),
        ensures
            cb.wf(),
            cb.cell_count == board.floor@.len(),
            cb.floor() == board.floor@,
            cb.width == board.width,
            cb.height == board.height,
            cb.wall_set@ == board.walls@.to_set(),
            cb.robot_cell == floor_index(board.floor@, board.initial_robot),
            cb.initial_box_cells@.len() == board.initial_boxes@.len(),
            forall|i: int|
                0 <= i < board.initial_boxes@.len() ==> (#[trigger] cb.initial_box_cells@[i]).0 == floor_index(
                    board.floor@,
                    board.initial_boxes@[i].position,
                ) && cb.initial_box_cells@[i].1 == board.initial_boxes@[i].label,
            cb.goal_cells@.len() == board.goals@.len(),
            forall|i: int|
                0 <= i < board.goals@.len() ==> (#[trigger] cb.goal_cells@[i]).0 == floor_index(
                    board.floor@,
                    board.goals@[i].position,
                ) && cb.goal_cells@[i].1 == board.goals@[i].label,
            distinct_floor(board.floor@) ==> nbrs_symmetric(cb.nbrs()),
    {
        let width = board.width;
        let height = board.height;
        let wall_set = build_wall_set(&board.walls);
        let cell_index = build_grid(&board.floor, width, height);
        let mut positions: Vec<Position> = Vec::new();
        let mut i: usize = 0;
        while i < board.floor.len()
            invariant
                i <= board.floor@.len(),
                positions@ == board.floor@.take(i as int),
            decreases board.floor@.len() - i,
        {
            positions.push(board.floor[i]);
            proof {
                assert(board.floor@.take(i + 1) =~= board.floor@.take(i as int).push(board.floor@[i as int]));
            }
            i += 1;
        }
        proof {
            assert(board.floor@.take(board.floor@.len() as int) =~= board.floor@);
        }
        let cell_count = positions.len() as u16;
        let neighbors = build_neighbors(&positions, &cell_index, width, height);
        let robot = board.initial_robot;
        let robot_cell = cell_index[robot.row as usize][robot.col as usize];
        let initial_box_cells = box_cells_of(&board.initial_boxes, &cell_index, width, height, Ghost(board.floor@));
        let goal_cells = goal_cells_of(&board.goals, &cell_index, width, height, Ghost(board.floor@));
        proof {
            assert forall|i: int| 0 <= i < goal_cells@.len() implies (#[trigger] goal_cells@[i]).0 < cell_count by {
                lemma_floor_index_range(board.floor@, board.goals@[i].position);
            }
            lemma_floor_index_range(board.floor@, robot);
            assert forall|i: int| 0 <= i < initial_box_cells@.len() implies (#[trigger] initial_box_cells@[i]).0 < cell_count
                || initial_box_cells@[i].0 == INVALID_CELL by {
                lemma_floor_index_range(board.floor@, board.initial_boxes@[i].position);
            }
        }
        let goal_at = build_goal_at(&goal_cells, cell_count);
        let reverse_push_dist = Self::compute_reverse_push_distances(cell_count, &neighbors, &goal_cells);
        let cb = CompiledBoard {
            cell_count,
            positions,
            cell_index,
            neighbors,
            goal_cells,
            wall_set,
            width,
            height,
            robot_cell,
            initial_box_cells,
            goal_at,
            reverse_push_dist,
        };
        proof {
            assert forall|g: int| 0 <= g < cb.goal_cells@.len() implies shortest(
                pulls(cb.neighbors@),
                cb.goal_cells@[g].0 as int,
                #[trigger] cb.push_dists(g),
                cb.cell_count as int,
                INVALID_CELL as int,
            ) by {
                assert(cb.push_dists(g) == cb.reverse_push_dist@.subrange(g * cell_count, (g + 1) * cell_count));
            }
            if distinct_floor(board.floor@) {
                cb.lemma_symmetric();
            }
        }
        cb
    }

    /// The neighbour table of a well-formed board is a table of cells; the
    /// board's accessors mean what the compilation built.
    pub proof fn lemma_wf(&self)
        requires
            self.wf(),
        ensures
            nbrs_ok(self.nbrs(), self.cell_count as int),
            self.floor().len() == self.cell_count,
            forall|c: int|
                0 <= c < self.cell_count ==> in_bounds(#[trigger] self.floor()[c], self.width, self.height)
                    && self.floor()[c].row < i16::MAX && self.floor()[c].col < i16::MAX,
            forall|c: int, d: Direction|
                0 <= c < self.cell_count ==> #[trigger] self.nbr(c, d) == cell_of(
                    self.floor(),
                    self.width,
                    self.height,
                    spec_offset(self.floor()[c], d),
                ),
            forall|c: int| 0 <= c < self.cell_count ==> #[trigger] self.goal_at_cell(c) == goal_group(self.goal_cells@, c),
            forall|i: int| 0 <= i < self.goal_cells@.len() ==> (#[trigger] self.goal_cells@[i]).0 < self.cell_count,
            self.robot_cell < self.cell_count || self.robot_cell == INVALID_CELL,
            forall|i: int|
                0 <= i < self.initial_box_cells@.len() ==> (#[trigger] self.initial_box_cells@[i]).0 < self.cell_count
                    || self.initial_box_cells@[i].0 == INVALID_CELL,
            forall|g: int|
                0 <= g < self.goal_cells@.len() ==> shortest(
                    pulls(self.nbrs()),
                    self.goal_cells@[g].0 as int,
                    #[trigger] self.push_dists(g),
                    self.cell_count as int,
                    INVALID_CELL as int,
                ),
    {
        assert forall|c: int, d: Direction| 0 <= c < self.cell_count implies #[trigger] self.nbr(c, d) == cell_of(
            self.floor(),
            self.width,
            self.height,
            spec_offset(self.floor()[c], d),
        ) by {
            assert(self.neighbors@[c]@[spec_index(d)] == cell_of(
                self.positions@,
                self.width,
                self.height,
                spec_offset(self.positions@[c], d),
            ));
        }
    }

    /// The cell at `pos`, or `INVALID_CELL` off the grid or on a wall.
    pub fn pos_to_cell(&self, pos: Position) -> (cell: u16)
        requires
            self.wf(),
        ensures
            cell == self.cell_at(pos),
    {
        if pos.row < 0 || pos.col < 0 || pos.row >= self.height as i16 || pos.col >= self.width as i16 {
            return INVALID_CELL;
        }
        proof {
            lemma_on_grid_in_bounds(pos, self.width, self.height);
        }
        self.cell_index[pos.row as usize][pos.col as usize]
    }

    /// The position of cell `cell`.
    pub fn cell_to_pos(&self, cell: u16) -> (pos: Position)
        requires
            self.wf(),
            cell < self.cell_count,
        ensures
            pos == self.floor()[cell as int],
    {
        self.positions[cell as usize]
    }

    /// The cell next to `cell` in direction `dir`, or `INVALID_CELL`.
    pub fn neighbor(&self, cell: u16, dir: Direction) -> (n: u16)
        requires
            self.wf(),
            cell < self.cell_count,
        ensures
            n == self.nbr(cell as int, dir),
    {
        self.neighbors[cell as usize][dir.index()]
    }

    /// Whether a goal lies on `cell`.
    pub fn is_goal(&self, cell: u16) -> (b: bool)
        requires
            self.wf(),
            cell < self.cell_count,
        ensures
            b == self.goal_at_cell(cell as int).is_some(),
    {
        self.goal_at[cell as usize].is_some()
    }

    /// The label of the goal on `cell`, if any.
    pub fn goal_label_at(&self, cell: u16) -> (l: Option<Label>)
        requires
            self.wf(),
            cell < self.cell_count,
        ensures
            l == match self.goal_at_cell(cell as int) {
                Some(g) => Some(Label(g)),
                None => None,
            },
    {
        match self.goal_at[cell as usize] {
            Some(g) => Some(Label(g)),
            None => None,
        }
    }

    /// Whether a goal of label group `label_group` lies on `cell`.
    pub fn goal_matches(&self, cell: u16, label_group: u8) -> (b: bool)
        requires
            self.wf(),
            cell < self.cell_count,
        ensures
            b == (self.goal_at_cell(cell as int) == Some(label_group)),
    {
        match self.goal_at[cell as usize] {
            Some(g) => g == label_group,
            None => false,
        }
    }

    /// The least number of pushes that bring a box from `cell` onto goal
    /// `goal_index` (`u16::MAX`: it cannot get there).
    pub fn reverse_push_distance(&self, goal_index: usize, cell: u16) -> (d: u16)
        requires
            self.wf(),
            goal_index < self.goal_cells@.len(),
            cell < self.cell_count,
        ensures
            d == self.push_dists(goal_index as int)[cell as int],
    {
        let ghost n = self.cell_count as int;
        let total = self.reverse_push_dist.len();
        proof {
            lemma_block_bounds(goal_index as int, self.goal_cells@.len() as int, n);
            assert(goal_index * n + cell < total);
        }
        let base: usize = goal_index * self.cell_count as usize;
        self.reverse_push_dist[base + cell as usize]
    }
}


/// How many steps in direction `d` still fit on the grid from `pos`.
pub open spec fn room_ahead(pos: Position, d: Direction, width: u16, height: u16) -> int {
    match d {
        Direction::Up => pos.row as int,
        Direction::Down => height - pos.row,
        Direction::Left => pos.col as int,
        Direction::Right => width - pos.col,
    }
}

impl CompiledBoard {
    /// A step to a neighbour moves one position in its direction, so the
    /// room left ahead shrinks by one and stays non-negative.
    pub proof fn lemma_step_position(&self, c: int, d: Direction)
        requires
            self.wf(),
            0 <= c < self.cell_count,
            self.nbr(c, d) != INVALID_CELL,
        ensures
            0 <= self.nbr(c, d) < self.cell_count,
            self.floor()[self.nbr(c, d)] == spec_offset(self.floor()[c], d),
            0 <= room_ahead(self.floor()[self.nbr(c, d)], d, self.width, self.height),
            room_ahead(self.floor()[self.nbr(c, d)], d, self.width, self.height) == room_ahead(
                self.floor()[c],
                d,
                self.width,
                self.height,
            ) - 1,
    {
        self.lemma_wf();
        let p = spec_offset(self.floor()[c], d);
        lemma_floor_index_range(self.floor(), p);
        let n = self.nbr(c, d);
        assert(self.floor()[n] == p);
        assert(in_bounds(self.floor()[n], self.width, self.height));
        assert(in_bounds(self.floor()[c], self.width, self.height));
    }
}

/// A cell holds a goal exactly when some entry of the goal list names it.
pub proof fn lemma_goal_group_some(goal_cells: Seq<(u16, Label)>, c: int)
    ensures
        goal_group(goal_cells, c).is_some() <==> exists|i: int| 0 <= i < goal_cells.len() && #[trigger] goal_cells[i].0 == c,
    decreases goal_cells.len(),
{
    if goal_cells.len() > 0 {
        lemma_goal_group_some(goal_cells.drop_last(), c);
        if goal_cells.last().0 != c {
            assert forall|i: int| 0 <= i < goal_cells.len() && #[trigger] goal_cells[i].0 == c implies 0 <= i < goal_cells.len() - 1 && goal_cells.drop_last()[i].0 == c by {}
        }
        assert forall|i: int| 0 <= i < goal_cells.drop_last().len() && #[trigger] goal_cells.drop_last()[i].0 == c implies 0 <= i < goal_cells.len() && goal_cells[i].0 == c by {}
        assert(goal_cells[goal_cells.len() - 1] == goal_cells.last());
    }
}

/// No two floor cells share a position.
pub open spec fn distinct_floor(floor: Seq<Position>) -> bool {
    forall|i: int, j: int| 0 <= i < j < floor.len() ==> #[trigger] floor[i] != #[trigger] floor[j]
}

/// Stepping back from a neighbour, in the opposite direction, returns.
pub open spec fn nbrs_symmetric(nb: Seq<[u16; 4]>) -> bool {
    forall|x: int, d: Direction|
        0 <= x < nb.len() && nb[x]@[spec_index(d)] != INVALID_CELL ==> #[trigger] nb[nb[x]@[spec_index(
            d,
        )] as int]@[spec_index(spec_opposite(d))] == x
}

/// The position of a floor cell maps back to the cell when no two floor
/// cells share a position.
proof fn lemma_floor_index_of(floor: Seq<Position>, i: int)
    requires
        distinct_floor(floor),
        0 <= i < floor.len(),
    ensures
        floor_index(floor, floor[i]) == i,
    decreases floor.len(),
{
    if i < floor.len() - 1 {
        assert(floor.last() != floor[i]);
        assert(distinct_floor(floor.drop_last()));
        lemma_floor_index_of(floor.drop_last(), i);
    }
}

/// A position that passes the bounds test exists only on boards no larger
/// than `i16::MAX` in either direction, where indexing and the test agree.
proof fn lemma_grid_small(pos: Position, q: Position, width: u16, height: u16)
    requires
        on_grid(pos, width, height),
        in_bounds(q, width, height),
    ensures
        on_grid(q, width, height),
{
    let r = pos.row;
    let c = pos.col;
    let qr = q.row;
    let qc = q.col;
    assert(0 <= r && r < (height as i16) && 0 <= qr && (qr as int) < (height as int) ==> qr < (height as i16))
        by (bit_vector);
    assert(0 <= c && c < (width as i16) && 0 <= qc && (qc as int) < (width as int) ==> qc < (width as i16))
        by (bit_vector);
}

impl CompiledBoard {
    /// The board compiled from a parsed board of at most `i16::MAX` rows
    /// and columns has a symmetric neighbour relation.
    pub proof fn lemma_parsed_symmetric(&self, board: ParsedBoard, rows: Seq<Seq<char>>)
        requires
            self.wf(),
            self.floor() == board.floor@,
            crate::board::describes(board, rows),
            rows.len() <= i16::MAX,
            crate::board::max_row_bytes(rows) <= i16::MAX,
        ensures
            nbrs_symmetric(self.nbrs()),
    {
        crate::board::lemma_floor_distinct(board, rows);
        self.lemma_symmetric();
    }

    /// On a board whose floor cells have distinct positions, the neighbour
    /// relation is symmetric.
    pub proof fn lemma_symmetric(&self)
        requires
            self.wf(),
            distinct_floor(self.floor()),
        ensures
            nbrs_symmetric(self.nbrs()),
    {
        let nb = self.nbrs();
        let floor = self.floor();
        assert forall|x: int, d: Direction|
            0 <= x < nb.len() && nb[x]@[spec_index(d)] != INVALID_CELL implies #[trigger] nb[nb[x]@[spec_index(
                d,
            )] as int]@[spec_index(spec_opposite(d))] == x by {
            let px = floor[x];
            let off = spec_offset(px, d);
            assert(nb[x]@[spec_index(d)] == cell_of(floor, self.width, self.height, off));
            let y = nb[x]@[spec_index(d)] as int;
            assert(on_grid(off, self.width, self.height));
            lemma_floor_index_range(floor, off);
            assert(floor[y] == off);
            lemma_offset_opposite_roundtrip(px, d);
            assert(nb[y]@[spec_index(spec_opposite(d))] == cell_of(
                floor,
                self.width,
                self.height,
                spec_offset(floor[y], spec_opposite(d)),
            ));
            lemma_grid_small(off, px, self.width, self.height);
            lemma_floor_index_of(floor, x);
        }
    }
}

} // verus!
