use vstd::prelude::*;

use crate::compiled_board::{room_ahead, CompiledBoard, INVALID_CELL};
use crate::position::{spec_index, Direction};
use crate::reachability::{contains_cell, has_cell, sorted_cells};

verus! {

broadcast use vstd::std_specs::vec::group_vec_axioms;

/// The axis along which a tunnel runs.
#[derive(Clone, Copy, Debug, PartialEq, Eq, Structural)]
enum TunnelAxis {
    Horizontal,
    Vertical,
}

/// Cell `c` has no neighbour on the side of direction index `d`.
pub open spec fn walled(cb: &CompiledBoard, c: int, d: int) -> bool {
    cb.nbrs()[c]@[d] == INVALID_CELL
}

/// Cell `c` holds no goal and runs left to right between walls above and
/// below.
pub open spec fn horizontal_tunnel(cb: &CompiledBoard, c: int) -> bool {
    cb.goal_at_cell(c).is_none() && walled(cb, c, 0) && walled(cb, c, 1) && !walled(cb, c, 2) && !walled(cb, c, 3)
}

/// Cell `c` holds no goal and runs up and down between walls on the left
/// and on the right.
pub open spec fn vertical_tunnel(cb: &CompiledBoard, c: int) -> bool {
    cb.goal_at_cell(c).is_none() && walled(cb, c, 2) && walled(cb, c, 3) && !walled(cb, c, 0) && !walled(cb, c, 1)
}

/// Pushing in `d` runs along the tunnel on cell `c`.
pub open spec fn along_tunnel(cb: &CompiledBoard, c: int, d: Direction) -> bool {
    ||| horizontal_tunnel(cb, c) && (d == Direction::Left || d == Direction::Right)
    ||| vertical_tunnel(cb, c) && (d == Direction::Up || d == Direction::Down)
}

/// Precomputed tunnels: the cells without a goal of one-wide corridors.
/// A box pushed into such a cell along the corridor has to go on to its
/// exit, with the keeper following behind.
#[derive(Clone, Debug)]
pub struct TunnelMap {
    tunnel_axis: Vec<Option<TunnelAxis>>,
}

/// Where a box pushed in `d` into the tunnel cell `target` ends up, with
/// the pushes after the first: it goes on while the next cell is a cell
/// without a box; it stops on the first cell that is no tunnel cell, or
/// before a wall or a box.
pub open spec fn slide(cb: &CompiledBoard, boxes: Seq<(u16, u8)>, cell: int, d: Direction, extra: int) -> (int, int)
    decreases room_ahead(cb.floor()[cell], d, cb.width, cb.height),
    when 0 <= cell < cb.cell_count && cb.wf()
{
    let next = cb.nbr(cell, d);
    if next == INVALID_CELL || has_cell(boxes, next) {
        (cell, extra)
    } else {
        proof {
            cb.lemma_step_position(cell, d);
        }
        if !horizontal_tunnel(cb, next) && !vertical_tunnel(cb, next) {
            (next, extra + 1)
        } else {
            slide(cb, boxes, next, d, extra + 1)
        }
    }
}

impl TunnelMap {
    /// The tunnel flag of every cell.
    pub closed spec fn is_tunnel_cell(&self, c: int) -> bool {
        self.tunnel_axis@[c].is_some()
    }

    /// The number of cells the map covers.
    pub closed spec fn len(&self) -> int {
        self.tunnel_axis@.len() as int
    }

    /// The map holds the tunnel axis of every cell of `cb`.
    pub closed spec fn wf(&self, cb: &CompiledBoard) -> bool {
        &&& self.tunnel_axis@.len() == cb.cell_count
        &&& forall|c: int|
            0 <= c < cb.cell_count ==> #[trigger] self.tunnel_axis@[c] == if horizontal_tunnel(cb, c) {
                Some(TunnelAxis::Horizontal)
            } else if vertical_tunnel(cb, c) {
                Some(TunnelAxis::Vertical)
            } else {
                None
            }
    }

    /// The map of `cb` covers its cells, and its tunnel cells are the
    /// horizontal and vertical tunnels.
    pub proof fn lemma_wf(&self, cb: &CompiledBoard)
        requires
            self.wf(cb),
        ensures
            self.len() == cb.cell_count,
            forall|c: int|
                0 <= c < cb.cell_count ==> #[trigger] self.is_tunnel_cell(c) == (horizontal_tunnel(cb, c) || vertical_tunnel(
                    cb,
                    c,
                )),
    {
    }

    /// Finds the tunnel cells: cells without a goal with walls on two
    /// opposite sides and open on the two others.
    pub fn analyze(cb: &CompiledBoard) -> (tm: TunnelMap)
        requires
            cb.wf(),
        ensures
            tm.wf(cb),
            tm.len() == cb.cell_count,
            forall|c: int|
                0 <= c < cb.cell_count ==> #[trigger] tm.is_tunnel_cell(c) == (horizontal_tunnel(cb, c) || vertical_tunnel(
                    cb,
                    c,
                )),
    {
        let n = cb.cell_count as usize;
        let mut tunnel_axis: Vec<Option<TunnelAxis>> = vec![None; n];
        let mut cell: u16 = 0;
        while cell < cb.cell_count
            invariant
                cb.wf(),
                n == cb.cell_count,
                cell <= n,
                tunnel_axis@.len() == n,
                forall|c: int|
                    0 <= c < cell ==> #[trigger] tunnel_axis@[c] == if horizontal_tunnel(cb, c) {
                        Some(TunnelAxis::Horizontal)
                    } else if vertical_tunnel(cb, c) {
                        Some(TunnelAxis::Vertical)
                    } else {
                        None
                    },
                forall|c: int| cell <= c < n ==> #[trigger] tunnel_axis@[c] == None::<TunnelAxis>,
            decreases n - cell,
        {
            if !cb.is_goal(cell) {
                let up = cb.neighbor(cell, Direction::Up) == INVALID_CELL;
                let down = cb.neighbor(cell, Direction::Down) == INVALID_CELL;
                let left = cb.neighbor(cell, Direction::Left) == INVALID_CELL;
                let right = cb.neighbor(cell, Direction::Right) == INVALID_CELL;
                if up && down && !left && !right {
                    tunnel_axis.set(cell as usize, Some(TunnelAxis::Horizontal));
                } else if left && right && !up && !down {
                    tunnel_axis.set(cell as usize, Some(TunnelAxis::Vertical));
                }
            }
            cell += 1;
        }
        let tm = TunnelMap { tunnel_axis };
        proof {
            tm.lemma_wf(cb);
        }
        tm
    }

    /// When `target` is a tunnel cell and `push_dir` runs along it, where the
    /// box pushed into `target` ends up and how many pushes that takes after
    /// the first; `None` when the push does not run along a tunnel or the box
    /// cannot move on from `target`. `box_cells` is sorted by cell.
    pub fn apply_tunnel(&self, cb: &CompiledBoard, target: u16, push_dir: Direction, box_cells: &[(u16, u8)]) -> (r: Option<(u16, u32)>)
        requires
            cb.wf(),
            self.wf(cb),
            sorted_cells(box_cells@),
        ensures
            r.is_some() <== (target < cb.cell_count && along_tunnel(cb, target as int, push_dir) && slide(
                cb,
                box_cells@,
                target as int,
                push_dir,
                0,
            ).1 > 0),
            r.is_some() ==> target < cb.cell_count && along_tunnel(cb, target as int, push_dir) && r == Some(
                (
                    slide(cb, box_cells@, target as int, push_dir, 0).0 as u16,
                    slide(cb, box_cells@, target as int, push_dir, 0).1 as u32,
                ),
            ),
    {
        if target as usize >= self.tunnel_axis.len() {
            return None;
        }
        let axis = match self.tunnel_axis[target as usize] {
            Some(a) => a,
            None => {
                return None;
            },
        };
        let dir_matches = match axis {
            TunnelAxis::Horizontal => push_dir == Direction::Left || push_dir == Direction::Right,
            TunnelAxis::Vertical => push_dir == Direction::Up || push_dir == Direction::Down,
        };
        if !dir_matches {
            return None;
        }
        proof {
            cb.lemma_wf();
        }
        let mut cell = target;
        let mut extra: u32 = 0;
        loop
            invariant_except_break
                cb.wf(),
                self.wf(cb),
                sorted_cells(box_cells@),
                cell < cb.cell_count,
                extra as int + room_ahead(cb.floor()[cell as int], push_dir, cb.width, cb.height) == room_ahead(
                    cb.floor()[target as int],
                    push_dir,
                    cb.width,
                    cb.height,
                ),
                0 <= room_ahead(cb.floor()[cell as int], push_dir, cb.width, cb.height),
                room_ahead(cb.floor()[target as int], push_dir, cb.width, cb.height) <= u16::MAX,
                slide(cb, box_cells@, cell as int, push_dir, extra as int) == slide(
                    cb,
                    box_cells@,
                    target as int,
                    push_dir,
                    0,
                ),
            ensures
                cell < cb.cell_count,
                (cell as int, extra as int) == slide(cb, box_cells@, target as int, push_dir, 0),
            decreases room_ahead(cb.floor()[cell as int], push_dir, cb.width, cb.height),
        {
            let next = cb.neighbor(cell, push_dir);
            if next == INVALID_CELL {
                break;
            }
            if contains_cell(box_cells, next) {
                break;
            }
            proof {
                cb.lemma_step_position(cell as int, push_dir);
            }
            if self.tunnel_axis[next as usize].is_none() {
                cell = next;
                extra += 1;
                break;
            }
            cell = next;
            extra += 1;
        }
        if extra == 0 {
            return None;
        }
        Some((cell, extra))
    }

    /// Whether `cell` is a tunnel cell (false for a cell beyond the map).
    pub fn is_tunnel(&self, cell: u16) -> (b: bool)
        ensures
            b == (cell < self.len() && self.is_tunnel_cell(cell as int)),
    {
        if (cell as usize) < self.tunnel_axis.len() {
            self.tunnel_axis[cell as usize].is_some()
        } else {
            false
        }
    }
}

} // verus!
