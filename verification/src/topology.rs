use vstd::prelude::*;

use crate::compiled_board::{
    direction_at, nbrs_ok, nbrs_symmetric, pull_step, pulls, CompiledBoard, INVALID_CELL,
};
use crate::graph::{lemma_closed_reach, reachable};
use crate::position::{spec_index, spec_opposite, Direction};

verus! {

broadcast use vstd::std_specs::vec::group_vec_axioms;

/// Cell `c` has a wall (no neighbour) on two perpendicular sides.
pub open spec fn corner_spec(nb: Seq<[u16; 4]>, c: int) -> bool {
    let up = nb[c]@[0] == INVALID_CELL;
    let down = nb[c]@[1] == INVALID_CELL;
    let left = nb[c]@[2] == INVALID_CELL;
    let right = nb[c]@[3] == INVALID_CELL;
    (up && left) || (up && right) || (down && left) || (down && right)
}

/// Every cell that a box on a cell of `dead` could have been pulled from is
/// in `dead` too.
pub open spec fn pull_closed(nb: Seq<[u16; 4]>, dead: Seq<bool>) -> bool {
    forall|x: int, y: int| 0 <= y < dead.len() && dead[y] && #[trigger] pull_step(nb, x, y) ==> dead[x]
}

/// No goal is in `dead`.
pub open spec fn goal_free(cb: &CompiledBoard, dead: Seq<bool>) -> bool {
    forall|c: int| 0 <= c < dead.len() && #[trigger] dead[c] ==> cb.goal_at_cell(c).is_none()
}

/// Board topology: the cells from which no box can reach a goal, and the
/// corner cells.
#[derive(Clone, Debug)]
pub struct BoardTopology {
    pub dead_cells: Vec<bool>,
    pub corner_cells: Vec<bool>,
}

/// Whether `cell` has walls on two perpendicular sides.
fn is_corner(cb: &CompiledBoard, cell: u16) -> (b: bool)
    requires
        cb.wf(),
        cell < cb.cell_count,
    ensures
        b == corner_spec(cb.nbrs(), cell as int),
{
    let up = cb.neighbor(cell, Direction::Up) == INVALID_CELL;
    let down = cb.neighbor(cell, Direction::Down) == INVALID_CELL;
    let left = cb.neighbor(cell, Direction::Left) == INVALID_CELL;
    let right = cb.neighbor(cell, Direction::Right) == INVALID_CELL;
    (up && left) || (up && right) || (down && left) || (down && right)
}

/// A corner has no cell a box could have been pulled onto it from.
proof fn lemma_corner_unpulled(nb: Seq<[u16; 4]>, x: int, c: int)
    requires
        nbrs_symmetric(nb),
        nb.len() <= INVALID_CELL,
        0 <= c < nb.len(),
        corner_spec(nb, c),
    ensures
        !pull_step(nb, x, c),
{
    if pull_step(nb, x, c) {
        let d = choose|d: int| 0 <= d < 4 && 0 <= x < nb.len() && 0 <= c < nb.len() && #[trigger] nb[x]@[d] == c && nb[c]@[d] != INVALID_CELL;
        let dir = crate::compiled_board::dir_of(d);
        assert(spec_index(dir) == d);
        assert(nb[nb[x]@[spec_index(dir)] as int]@[spec_index(spec_opposite(dir))] == x);
    }
}

/// A cell with a wall on side `wall` can be pulled onto only from its
/// neighbours along the perpendicular axis `walk`.
proof fn lemma_line_unpulled(nb: Seq<[u16; 4]>, x: int, y: int, walk: Direction, wall: Direction)
    requires
        nbrs_symmetric(nb),
        nb.len() <= INVALID_CELL,
        0 <= y < nb.len(),
        nb[y]@[spec_index(wall)] == INVALID_CELL,
        spec_index(walk) / 2 != spec_index(wall) / 2,
        pull_step(nb, x, y),
    ensures
        x == nb[y]@[spec_index(walk)] || x == nb[y]@[spec_index(spec_opposite(walk))],
{
    let d = choose|d: int| 0 <= d < 4 && 0 <= x < nb.len() && 0 <= y < nb.len() && #[trigger] nb[x]@[d] == y && nb[y]@[d] != INVALID_CELL;
    let dir = crate::compiled_board::dir_of(d);
    assert(spec_index(dir) == d);
    assert(nb[nb[x]@[spec_index(dir)] as int]@[spec_index(spec_opposite(dir))] == x);
}

/// The cells from the one after `c` along `walk` up to the first dead cell,
/// when every one of them has a wall on side `wall` and none is a goal;
/// `None` when the run leaves the floor, loses its wall or meets a goal
/// before a dead cell.
pub open spec fn line_run(cb: &CompiledBoard, dead: Seq<bool>, c: int, walk: Direction, wall: Direction) -> Option<Seq<u16>>
    decreases (if walk == Direction::Right {
        cb.width - cb.floor()[c].col
    } else {
        cb.height - cb.floor()[c].row
    }),
    when cb.wf() && 0 <= c < cb.cell_count && (walk == Direction::Right || walk == Direction::Down)
{
    let next = cb.nbr(c, walk);
    if next == INVALID_CELL || cb.nbr(next, wall) != INVALID_CELL || cb.goal_at_cell(next).is_some() {
        None
    } else if dead[next] {
        Some(seq![next as u16])
    } else {
        proof {
            lemma_walk_step(cb, c, walk);
        }
        match line_run(cb, dead, next, walk, wall) {
            None => None,
            Some(rest) => Some(seq![next as u16] + rest),
        }
    }
}

/// One step along `walk` stays on the floor, one column or row further.
pub proof fn lemma_walk_step(cb: &CompiledBoard, c: int, walk: Direction)
    requires
        cb.wf(),
        0 <= c < cb.cell_count,
        walk == Direction::Right || walk == Direction::Down,
        cb.nbr(c, walk) != INVALID_CELL,
    ensures
        0 <= cb.nbr(c, walk) < cb.cell_count,
        walk == Direction::Right ==> cb.floor()[cb.nbr(c, walk)].col == cb.floor()[c].col + 1
            && cb.floor()[cb.nbr(c, walk)].col < cb.width,
        walk == Direction::Down ==> cb.floor()[cb.nbr(c, walk)].row == cb.floor()[c].row + 1
            && cb.floor()[cb.nbr(c, walk)].row < cb.height,
        walk == Direction::Right ==> cb.floor()[cb.nbr(c, walk)].row == cb.floor()[c].row,
        walk == Direction::Down ==> cb.floor()[cb.nbr(c, walk)].col == cb.floor()[c].col,
{
    cb.lemma_wf();
    let floor = cb.floor();
    let off = crate::position::spec_offset(floor[c], walk);
    assert(cb.nbr(c, walk) == crate::compiled_board::cell_of(floor, cb.width, cb.height, off));
    crate::compiled_board::lemma_floor_index_range(floor, off);
    let next = cb.nbr(c, walk);
    assert(floor[next] == off);
    assert(crate::compiled_board::in_bounds(floor[next], cb.width, cb.height));
}

/// `dead` with the cells of `run` marked.
pub open spec fn marked(dead: Seq<bool>, run: Seq<u16>) -> Seq<bool> {
    Seq::new(dead.len(), |c: int| dead[c] || run.contains(c as u16))
}

/// Marks the cells between the dead cell `start` and the next dead cell along
/// `walk_dir`, when all of them have a wall on side `wall_dir` and none is a
/// goal.
fn mark_dead_line(cb: &CompiledBoard, dead: &mut Vec<bool>, start: u16, walk_dir: Direction, wall_dir: Direction)
    requires
        cb.wf(),
        old(dead)@.len() == cb.cell_count,
        start < cb.cell_count,
        old(dead)@[start as int],
        walk_dir == Direction::Right || walk_dir == Direction::Down,
        spec_index(walk_dir) / 2 != spec_index(wall_dir) / 2,
        goal_free(cb, old(dead)@),
    ensures
        final(dead)@.len() == cb.cell_count,
        forall|c: int| 0 <= c < cb.cell_count && #[trigger] old(dead)@[c] ==> final(dead)@[c],
        goal_free(cb, final(dead)@),
        nbrs_symmetric(cb.nbrs()) && pull_closed(cb.nbrs(), old(dead)@) ==> pull_closed(cb.nbrs(), final(dead)@),
        final(dead)@ == match line_run(cb, old(dead)@, start as int, walk_dir, wall_dir) {
            None => old(dead)@,
            Some(run) => marked(old(dead)@, run),
        },
{
    proof {
        cb.lemma_wf();
    }
    let ghost nb = cb.nbrs();
    let ghost n = cb.cell_count as int;
    let ghost floor = cb.floor();
    let mut candidates: Vec<u16> = Vec::new();
    let mut cell = start;
    let ghost d0 = dead@;
    loop
        invariant_except_break
            cell < n,
            candidates@.len() == 0 ==> cell == start,
            candidates@.len() > 0 ==> cell == candidates@.last(),
            candidates@.len() > 0 ==> !d0[cell as int],
            line_run(cb, d0, start as int, walk_dir, wall_dir) == match line_run(cb, d0, cell as int, walk_dir, wall_dir) {
                None => None,
                Some(rest) => Some(candidates@ + rest),
            },
        invariant
            cb.wf(),
            nb == cb.nbrs(),
            floor == cb.floor(),
            n == cb.cell_count,
            nbrs_ok(nb, n),
            start < n,
            walk_dir == Direction::Right || walk_dir == Direction::Down,
            dead@.len() == n,
            dead@ == d0,
            goal_free(cb, d0),
            forall|i: int| 0 <= i < candidates@.len() ==> (#[trigger] candidates@[i]) < n,
            forall|i: int|
                0 <= i < candidates@.len() ==> nb[candidates@[i] as int]@[spec_index(wall_dir)] == INVALID_CELL
                    && cb.goal_at_cell(#[trigger] candidates@[i] as int).is_none(),
            candidates@.len() > 0 ==> nb[start as int]@[spec_index(walk_dir)] == candidates@[0],
            forall|i: int|
                0 <= i < candidates@.len() - 1 ==> nb[(#[trigger] candidates@[i]) as int]@[spec_index(walk_dir)]
                    == candidates@[i + 1],
        ensures
            cell < n,
            candidates@.len() == 0 ==> cell == start,
            candidates@.len() > 0 ==> cell == candidates@.last(),
            dead@[cell as int] ==> candidates@.len() > 0 ==> dead@[candidates@.last() as int],
            candidates@.len() > 0 && d0[cell as int] ==> line_run(cb, d0, start as int, walk_dir, wall_dir) == Some(
                candidates@,
            ),
            !(candidates@.len() > 0 && d0[cell as int]) ==> line_run(cb, d0, start as int, walk_dir, wall_dir) is None,
        decreases (if walk_dir == Direction::Right {
            cb.width - floor[cell as int].col
        } else {
            cb.height - floor[cell as int].row
        }),
    {
        let next = cb.neighbor(cell, walk_dir);
        if next == INVALID_CELL {
            proof {
                assert(line_run(cb, d0, cell as int, walk_dir, wall_dir) is None);
            }
            break;
        }
        proof {
            cb.lemma_wf();
            let off = crate::position::spec_offset(floor[cell as int], walk_dir);
            assert(cb.nbr(cell as int, walk_dir) == crate::compiled_board::cell_of(floor, cb.width, cb.height, off));
            crate::compiled_board::lemma_floor_index_range(floor, off);
            assert(floor[next as int] == off);
            assert(crate::compiled_board::in_bounds(floor[next as int], cb.width, cb.height));
        }
        let ghost prev = cell;
        let ghost cands = candidates@;
        proof {
            assert(candidates@ + seq![] =~= candidates@);
        }
        cell = next;
        if cb.neighbor(cell, wall_dir) != INVALID_CELL {
            proof {
                assert(line_run(cb, d0, prev as int, walk_dir, wall_dir) is None);
            }
            return;
        }
        if cb.is_goal(cell) {
            proof {
                assert(line_run(cb, d0, prev as int, walk_dir, wall_dir) is None);
            }
            return;
        }
        candidates.push(cell);
        proof {
            if candidates@.len() > 1 {
                assert(candidates@[candidates@.len() - 2] == prev);
            }
            let run = line_run(cb, d0, prev as int, walk_dir, wall_dir);
            if d0[cell as int] {
                assert(run == Some(seq![cell]));
                assert(cands + seq![cell] =~= candidates@);
            } else {
                match line_run(cb, d0, cell as int, walk_dir, wall_dir) {
                    None => {},
                    Some(rest) => {
                        assert(run == Some(seq![cell] + rest));
                        assert(cands + (seq![cell] + rest) =~= candidates@ + rest);
                    },
                }
            }
            if cands.len() == 0 {
                assert(seq![cell] =~= candidates@);
            }
        }
        if dead[cell as usize] {
            break;
        }
    }
    if !dead[cell as usize] {
        return;
    }
    proof {
        if candidates@.len() == 0 {
            assert(line_run(cb, d0, start as int, walk_dir, wall_dir) is None);
        }
    }
    let ghost old_dead = dead@;
    let mut i: usize = 0;
    while i < candidates.len()
        invariant
            cb.wf(),
            nb == cb.nbrs(),
            n == cb.cell_count,
            nbrs_ok(nb, n),
            start < n,
            old_dead.len() == n,
            old_dead[start as int],
            goal_free(cb, old_dead),
            candidates@.len() > 0 ==> old_dead[candidates@.last() as int],
            i <= candidates@.len(),
            dead@.len() == n,
            forall|k: int| 0 <= k < candidates@.len() ==> (#[trigger] candidates@[k]) < n,
            forall|k: int|
                0 <= k < candidates@.len() ==> nb[candidates@[k] as int]@[spec_index(wall_dir)] == INVALID_CELL
                    && cb.goal_at_cell(#[trigger] candidates@[k] as int).is_none(),
            forall|c: int| 0 <= c < n ==> #[trigger] dead@[c] == (old_dead[c] || exists|k: int| 0 <= k < i && candidates@[k] == c),
        decreases candidates@.len() - i,
    {
        dead.set(candidates[i] as usize, true);
        proof {
            assert forall|c: int| 0 <= c < n implies #[trigger] dead@[c] == (old_dead[c] || exists|k: int| 0 <= k < i + 1 && candidates@[k] == c) by {
                if c == candidates@[i as int] {
                    assert(candidates@[i as int] == c);
                }
            }
        }
        i += 1;
    }
    proof {
        assert forall|c: int| 0 <= c < n && #[trigger] dead@[c] implies cb.goal_at_cell(c).is_none() by {
            if !old_dead[c] {
                let k = choose|k: int| 0 <= k < candidates@.len() && candidates@[k] == c;
                assert(cb.goal_at_cell(candidates@[k] as int).is_none());
            }
        }
        if nbrs_symmetric(nb) && pull_closed(nb, old_dead) {
            assert forall|x: int, y: int| 0 <= y < dead@.len() && dead@[y] && #[trigger] pull_step(nb, x, y) implies dead@[x] by {
                if old_dead[y] {
                    assert(old_dead[x]);
                } else {
                    let k = choose|k: int| 0 <= k < candidates@.len() && candidates@[k] == y;
                    assert(nb[candidates@[k] as int]@[spec_index(wall_dir)] == INVALID_CELL);
                    lemma_line_unpulled(nb, x, y, walk_dir, wall_dir);
                    if x == nb[y]@[spec_index(walk_dir)] {
                        if k < candidates@.len() - 1 {
                            assert(nb[candidates@[k] as int]@[spec_index(walk_dir)] == candidates@[k + 1]);
                            assert(dead@[candidates@[k + 1] as int]);
                        } else {
                            // The run ends at a dead cell: y is the last candidate.
                            assert(y == candidates@.last());
                            assert(old_dead[y]);
                        }
                    } else {
                        if k == 0 {
                            assert(nb[start as int]@[spec_index(walk_dir)] == y);
                            assert(nb[y]@[spec_index(spec_opposite(walk_dir))] == start);
                        } else {
                            let p = candidates@[k - 1];
                            assert(nb[p as int]@[spec_index(walk_dir)] == y);
                            assert(nb[y]@[spec_index(spec_opposite(walk_dir))] == p);
                            assert(dead@[p as int]);
                        }
                    }
                }
            }
        }
    }
}

/// The corners that hold no goal.
pub open spec fn dead_corners(cb: &CompiledBoard) -> Seq<bool> {
    Seq::new(cb.cell_count as nat, |c: int| cb.goal_at_cell(c).is_none() && corner_spec(cb.nbrs(), c))
}

/// The walk and wall directions of the `k`-th run tried from a dead cell:
/// right under a wall above, right over a wall below, down beside a wall on
/// the left, down beside a wall on the right.
pub open spec fn run_dirs(k: int) -> (Direction, Direction) {
    if k == 0 {
        (Direction::Right, Direction::Up)
    } else if k == 1 {
        (Direction::Right, Direction::Down)
    } else if k == 2 {
        (Direction::Down, Direction::Left)
    } else {
        (Direction::Down, Direction::Right)
    }
}

/// `dead` with the run from `c` along `walk` marked, when there is one.
pub open spec fn with_run(cb: &CompiledBoard, dead: Seq<bool>, c: int, walk: Direction, wall: Direction) -> Seq<bool> {
    match line_run(cb, dead, c, walk, wall) {
        None => dead,
        Some(run) => marked(dead, run),
    }
}

/// `dead` with the first `k` runs from `c` marked, one after the other.
pub open spec fn with_runs(cb: &CompiledBoard, dead: Seq<bool>, c: int, k: int) -> Seq<bool>
    decreases k,
{
    if k <= 0 {
        dead
    } else {
        with_run(cb, with_runs(cb, dead, c, k - 1), c, run_dirs(k - 1).0, run_dirs(k - 1).1)
    }
}

/// The dead cells after the cells below `k` were swept in order: the
/// non-goal corners, and from each cell found dead when its turn comes, its
/// four runs marked.
pub open spec fn dead_sweep(cb: &CompiledBoard, k: int) -> Seq<bool>
    decreases k,
{
    if k <= 0 {
        dead_corners(cb)
    } else {
        let d = dead_sweep(cb, k - 1);
        if d[k - 1] {
            with_runs(cb, d, k - 1, 4)
        } else {
            d
        }
    }
}

/// The dead cells: non-goal corners, and the wall-hugging runs between two
/// dead cells that hold no goal.
fn compute_dead_cells(cb: &CompiledBoard) -> (dead: Vec<bool>)
    requires
        cb.wf(),
    ensures
        dead@.len() == cb.cell_count,
        goal_free(cb, dead@),
        forall|c: int|
            0 <= c < cb.cell_count && cb.goal_at_cell(c).is_none() && corner_spec(cb.nbrs(), c) ==> #[trigger] dead@[c],
        nbrs_symmetric(cb.nbrs()) ==> pull_closed(cb.nbrs(), dead@),
        dead@ == dead_sweep(cb, cb.cell_count as int),
{
    proof {
        cb.lemma_wf();
    }
    let ghost nb = cb.nbrs();
    let ghost n = cb.cell_count as int;
    let mut dead: Vec<bool> = vec![false; cb.cell_count as usize];
    let mut cell: u16 = 0;
    while cell < cb.cell_count
        invariant
            cb.wf(),
            nb == cb.nbrs(),
            n == cb.cell_count,
            nbrs_ok(nb, n),
            cell <= n,
            dead@.len() == n,
            goal_free(cb, dead@),
            forall|c: int| 0 <= c < cell && cb.goal_at_cell(c).is_none() && corner_spec(nb, c) ==> #[trigger] dead@[c],
            forall|c: int| 0 <= c < n && #[trigger] dead@[c] ==> corner_spec(nb, c),
            forall|c: int| 0 <= c < cell ==> #[trigger] dead@[c] == dead_corners(cb)[c],
            forall|c: int| cell <= c < n ==> !#[trigger] dead@[c],
        decreases n - cell,
    {
        if !cb.is_goal(cell) {
            if is_corner(cb, cell) {
                dead.set(cell as usize, true);
            }
        }
        cell += 1;
    }
    proof {
        if nbrs_symmetric(nb) {
            assert forall|x: int, y: int| 0 <= y < dead@.len() && dead@[y] && #[trigger] pull_step(nb, x, y) implies dead@[x] by {
                lemma_corner_unpulled(nb, x, y);
            }
        }
    }
    proof {
        assert(dead@ =~= dead_sweep(cb, 0));
    }
    let mut cell: u16 = 0;
    while cell < cb.cell_count
        invariant
            cb.wf(),
            nb == cb.nbrs(),
            n == cb.cell_count,
            nbrs_ok(nb, n),
            cell <= n,
            dead@.len() == n,
            dead@ == dead_sweep(cb, cell as int),
            goal_free(cb, dead@),
            forall|c: int| 0 <= c < n && cb.goal_at_cell(c).is_none() && corner_spec(nb, c) ==> #[trigger] dead@[c],
            nbrs_symmetric(nb) ==> pull_closed(nb, dead@),
        decreases n - cell,
    {
        let ghost d0 = dead@;
        if dead[cell as usize] {
            let mut k: usize = 0;
            while k < 4
                invariant
                    d0 == dead_sweep(cb, cell as int),
                    d0[cell as int],
                    k <= 4,
                    dead@ == with_runs(cb, d0, cell as int, k as int),
                    cb.wf(),
                    nb == cb.nbrs(),
                    n == cb.cell_count,
                    cell < n,
                    dead@.len() == n,
                    dead@[cell as int],
                    goal_free(cb, dead@),
                    forall|c: int| 0 <= c < n && cb.goal_at_cell(c).is_none() && corner_spec(nb, c) ==> #[trigger] dead@[c],
                    nbrs_symmetric(nb) ==> pull_closed(nb, dead@),
                decreases 4 - k,
            {
                let (walk_dir, wall_dir) = if k == 0 {
                    (Direction::Right, Direction::Up)
                } else if k == 1 {
                    (Direction::Right, Direction::Down)
                } else if k == 2 {
                    (Direction::Down, Direction::Left)
                } else {
                    (Direction::Down, Direction::Right)
                };
                let ghost before = dead@;
                assert(run_dirs(k as int) == (walk_dir, wall_dir));
                mark_dead_line(cb, &mut dead, cell, walk_dir, wall_dir);
                proof {
                    assert forall|c: int| 0 <= c < n && cb.goal_at_cell(c).is_none() && corner_spec(nb, c) implies #[trigger] dead@[c] by {
                        assert(before[c]);
                    }
                }
                k += 1;
            }
        }
        cell += 1;
    }
    dead
}

impl BoardTopology {
    /// Analyses the board: marks the non-goal corners, and the dead cells.
    pub fn analyze(cb: &CompiledBoard) -> (topo: BoardTopology)
        requires
            cb.wf(),
        ensures
            topo.dead_cells@.len() == cb.cell_count,
            topo.corner_cells@.len() == cb.cell_count,
            forall|c: int|
                0 <= c < cb.cell_count ==> #[trigger] topo.corner_cells@[c] == (cb.goal_at_cell(c).is_none()
                    && corner_spec(cb.nbrs(), c)),
            goal_free(cb, topo.dead_cells@),
            forall|c: int| 0 <= c < cb.cell_count && #[trigger] topo.corner_cells@[c] ==> topo.dead_cells@[c],
            nbrs_symmetric(cb.nbrs()) ==> pull_closed(cb.nbrs(), topo.dead_cells@),
        topo.dead_cells@ == dead_sweep(cb, cb.cell_count as int),
    {
        let mut corner_cells: Vec<bool> = vec![false; cb.cell_count as usize];
        let mut cell: u16 = 0;
        while cell < cb.cell_count
            invariant
                cb.wf(),
                cell <= cb.cell_count,
                corner_cells@.len() == cb.cell_count,
                forall|c: int|
                    0 <= c < cell ==> #[trigger] corner_cells@[c] == (cb.goal_at_cell(c).is_none() && corner_spec(
                        cb.nbrs(),
                        c,
                    )),
                forall|c: int| cell <= c < cb.cell_count ==> !#[trigger] corner_cells@[c],
            decreases cb.cell_count - cell,
        {
            if !cb.is_goal(cell) {
                let corner = is_corner(cb, cell);
                corner_cells.set(cell as usize, corner);
            }
            cell += 1;
        }
        let dead_cells = compute_dead_cells(cb);
        BoardTopology { dead_cells, corner_cells }
    }

    /// Whether no box on `cell` can ever reach a goal.
    pub fn is_dead(&self, cell: u16) -> (b: bool)
        requires
            cell < self.dead_cells@.len(),
        ensures
            b == self.dead_cells@[cell as int],
    {
        self.dead_cells[cell as usize]
    }

    /// Whether `cell` is a corner that holds no goal.
    pub fn is_corner(&self, cell: u16) -> (b: bool)
        requires
            cell < self.corner_cells@.len(),
        ensures
            b == self.corner_cells@[cell as int],
    {
        self.corner_cells[cell as usize]
    }
}

/// On a board whose neighbour relation is symmetric, a box on a dead cell can
/// never be pushed onto any goal: the least number of pushes from a dead cell
/// to every goal is infinite (`u16::MAX`).
pub proof fn lemma_dead_cells_unreachable(cb: &CompiledBoard, topo: &BoardTopology, g: int, c: int)
    requires
        cb.wf(),
        nbrs_symmetric(cb.nbrs()),
        topo.dead_cells@.len() == cb.cell_count,
        goal_free(cb, topo.dead_cells@),
        pull_closed(cb.nbrs(), topo.dead_cells@),
        0 <= g < cb.goal_cells@.len(),
        0 <= c < cb.cell_count,
        topo.dead_cells@[c],
    ensures
        cb.push_dists(g)[c] == INVALID_CELL,
{
    cb.lemma_wf();
    let nb = cb.nbrs();
    let dead = topo.dead_cells@;
    let n = cb.cell_count as int;
    let goal = cb.goal_cells@[g].0 as int;
    lemma_goal_cell_has_goal(cb.goal_cells@, g);
    let inside = |x: int| 0 <= x < n && !dead[x];
    assert forall|x: int, y: int| inside(x) && #[trigger] pulls(nb)(x, y) implies inside(y) by {
        assert(pull_step(nb, x, y));
    }
    if reachable(pulls(nb), goal, c) {
        lemma_closed_reach(pulls(nb), inside, goal, c);
    }
}

/// The cell of a listed goal holds a goal.
proof fn lemma_goal_cell_has_goal(goal_cells: Seq<(u16, crate::types::Label)>, g: int)
    requires
        0 <= g < goal_cells.len(),
    ensures
        crate::compiled_board::goal_group(goal_cells, goal_cells[g].0 as int).is_some(),
    decreases goal_cells.len(),
{
    if goal_cells.last().0 != goal_cells[g].0 {
        assert(g < goal_cells.len() - 1);
        assert(goal_cells.drop_last()[g] == goal_cells[g]);
        lemma_goal_cell_has_goal(goal_cells.drop_last(), g);
    }
}

/// Marking a run keeps every cell already marked.
proof fn lemma_with_run_keeps(cb: &CompiledBoard, d: Seq<bool>, c: int, walk: Direction, wall: Direction)
    ensures
        with_run(cb, d, c, walk, wall).len() == d.len(),
        forall|y: int| 0 <= y < d.len() && d[y] ==> #[trigger] with_run(cb, d, c, walk, wall)[y],
{
}

/// Marking runs keeps every cell already marked, and more runs keep those
/// marked by fewer.
proof fn lemma_with_runs_keeps(cb: &CompiledBoard, d: Seq<bool>, c: int, m: int, k: int)
    requires
        0 <= m <= k,
    ensures
        with_runs(cb, d, c, k).len() == d.len(),
        forall|y: int| 0 <= y < d.len() && with_runs(cb, d, c, m)[y] ==> #[trigger] with_runs(cb, d, c, k)[y],
    decreases k,
{
    if k > 0 {
        if m < k {
            lemma_with_runs_keeps(cb, d, c, m, k - 1);
        } else {
            lemma_with_runs_keeps(cb, d, c, 0, k - 1);
        }
        lemma_with_run_keeps(cb, with_runs(cb, d, c, k - 1), c, run_dirs(k - 1).0, run_dirs(k - 1).1);
    }
}

/// The sweep has a flag for every cell, and a cell dead after `j` cells
/// stays dead after `k >= j`.
proof fn lemma_sweep_grows(cb: &CompiledBoard, j: int, k: int)
    requires
        0 <= j <= k,
    ensures
        dead_sweep(cb, k).len() == cb.cell_count,
        forall|y: int| 0 <= y < cb.cell_count && dead_sweep(cb, j)[y] ==> #[trigger] dead_sweep(cb, k)[y],
    decreases k,
{
    if k > 0 {
        if j < k {
            lemma_sweep_grows(cb, j, k - 1);
        } else {
            lemma_sweep_grows(cb, 0, k - 1);
        }
        let d = dead_sweep(cb, k - 1);
        if d[k - 1] {
            lemma_with_runs_keeps(cb, d, k - 1, 0, 4);
        }
    }
}

/// The cells `xs[1..]` follow one another along `walk`, each with a wall on
/// side `wall` and no goal, up to a marked last cell: the run from `xs[t - 1]`
/// starts with `xs[t]`.
proof fn lemma_run_reaches(cb: &CompiledBoard, d: Seq<bool>, walk: Direction, wall: Direction, xs: Seq<int>, t: int)
    requires
        cb.wf(),
        walk == Direction::Right || walk == Direction::Down,
        1 <= t < xs.len(),
        forall|i: int| 0 <= i < xs.len() ==> 0 <= #[trigger] xs[i] < cb.cell_count,
        forall|i: int| 0 <= i < xs.len() - 1 ==> cb.nbr(#[trigger] xs[i], walk) == xs[i + 1],
        forall|i: int|
            1 <= i < xs.len() ==> cb.nbr(#[trigger] xs[i], wall) == INVALID_CELL && cb.goal_at_cell(xs[i]).is_none(),
        d[xs.last()],
    ensures
        line_run(cb, d, xs[t - 1], walk, wall) matches Some(run) && run.len() > 0 && run[0] as int == xs[t],
    decreases xs.len() - t,
{
    let x = xs[t - 1];
    assert(cb.nbr(xs[t - 1], walk) == xs[t]);
    assert(cb.nbr(xs[t], wall) == INVALID_CELL && cb.goal_at_cell(xs[t]).is_none());
    if !d[xs[t]] {
        assert(t < xs.len() - 1);
        lemma_run_reaches(cb, d, walk, wall, xs, t + 1);
        lemma_walk_step(cb, x, walk);
    }
}

/// On a board whose cells are numbered in row-major order, a straight line
/// of cells along a wall (each cell after the first with the wall on the
/// same side, above or below for a line to the right, left or right for a
/// line downwards) that runs from a corner without a goal to another such
/// corner, and holds no goal, is dead all along.
pub proof fn lemma_wall_run_dead(cb: &CompiledBoard, walk: Direction, wall: Direction, xs: Seq<int>)
    requires
        cb.wf(),
        forall|a: int, b: int|
            0 <= a < b < cb.cell_count ==> crate::board::pos_before(#[trigger] cb.floor()[a], #[trigger] cb.floor()[b]),
        (walk == Direction::Right && (wall == Direction::Up || wall == Direction::Down)) || (walk == Direction::Down
            && (wall == Direction::Left || wall == Direction::Right)),
        xs.len() >= 2,
        forall|i: int| 0 <= i < xs.len() ==> 0 <= #[trigger] xs[i] < cb.cell_count,
        forall|i: int| 0 <= i < xs.len() - 1 ==> cb.nbr(#[trigger] xs[i], walk) == xs[i + 1],
        forall|i: int|
            1 <= i < xs.len() ==> cb.nbr(#[trigger] xs[i], wall) == INVALID_CELL && cb.goal_at_cell(xs[i]).is_none(),
        cb.goal_at_cell(xs[0]).is_none() && corner_spec(cb.nbrs(), xs[0]),
        cb.goal_at_cell(xs.last()).is_none() && corner_spec(cb.nbrs(), xs.last()),
    ensures
        forall|i: int| 0 <= i < xs.len() ==> #[trigger] dead_sweep(cb, cb.cell_count as int)[xs[i]],
{
    let n = cb.cell_count as int;
    assert forall|i: int| 0 <= i < xs.len() implies #[trigger] dead_sweep(cb, n)[xs[i]] by {
        lemma_chain_dead(cb, walk, wall, xs, i);
        lemma_sweep_grows(cb, xs[i], n);
    }
}

/// Each cell of such a line is dead by the time the sweep comes to it.
proof fn lemma_chain_dead(cb: &CompiledBoard, walk: Direction, wall: Direction, xs: Seq<int>, i: int)
    requires
        cb.wf(),
        forall|a: int, b: int|
            0 <= a < b < cb.cell_count ==> crate::board::pos_before(#[trigger] cb.floor()[a], #[trigger] cb.floor()[b]),
        (walk == Direction::Right && (wall == Direction::Up || wall == Direction::Down)) || (walk == Direction::Down
            && (wall == Direction::Left || wall == Direction::Right)),
        xs.len() >= 2,
        0 <= i < xs.len(),
        forall|i: int| 0 <= i < xs.len() ==> 0 <= #[trigger] xs[i] < cb.cell_count,
        forall|i: int| 0 <= i < xs.len() - 1 ==> cb.nbr(#[trigger] xs[i], walk) == xs[i + 1],
        forall|i: int|
            1 <= i < xs.len() ==> cb.nbr(#[trigger] xs[i], wall) == INVALID_CELL && cb.goal_at_cell(xs[i]).is_none(),
        cb.goal_at_cell(xs[0]).is_none() && corner_spec(cb.nbrs(), xs[0]),
        cb.goal_at_cell(xs.last()).is_none() && corner_spec(cb.nbrs(), xs.last()),
    ensures
        dead_sweep(cb, xs[i])[xs[i]],
    decreases i,
{
    let last = xs.last();
    if i == 0 {
        assert(dead_corners(cb)[xs[0]]);
        lemma_sweep_grows(cb, 0, xs[0]);
    } else {
        lemma_chain_dead(cb, walk, wall, xs, i - 1);
        let x = xs[i - 1];
        let y = xs[i];
        assert(cb.nbr(xs[i - 1], walk) == xs[i]);
        lemma_walk_step(cb, x, walk);
        if y <= x {
            if y < x {
                assert(crate::board::pos_before(cb.floor()[y], cb.floor()[x]));
            }
            assert(false);
        }
        let d = dead_sweep(cb, x);
        lemma_sweep_grows(cb, 0, x);
        assert(dead_corners(cb)[last]);
        assert(d[last]);
        let k: int = if walk == Direction::Right {
            if wall == Direction::Up {
                0
            } else {
                1
            }
        } else if wall == Direction::Left {
            2
        } else {
            3
        };
        assert(run_dirs(k) == (walk, wall));
        lemma_with_runs_keeps(cb, d, x, 0, k);
        let dk = with_runs(cb, d, x, k);
        assert(dk[last]);
        lemma_run_reaches(cb, dk, walk, wall, xs, i);
        let run = line_run(cb, dk, x, walk, wall)->0;
        assert(run[0] == y as u16);
        assert(with_runs(cb, d, x, k + 1) == with_run(cb, dk, x, walk, wall));
        assert(with_run(cb, dk, x, walk, wall)[y]);
        lemma_with_runs_keeps(cb, d, x, k + 1, 4);
        assert(dead_sweep(cb, x + 1) == with_runs(cb, d, x, 4));
        assert(dead_sweep(cb, x + 1)[y]);
        lemma_sweep_grows(cb, x + 1, y);
    }
}

} // verus!
