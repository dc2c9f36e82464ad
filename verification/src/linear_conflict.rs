use vstd::prelude::*;

use crate::compiled_board::CompiledBoard;
use crate::dense_state::DenseState;
use crate::types::Label;

verus! {

broadcast use vstd::std_specs::vec::group_vec_axioms;

/// The columns of the goals of label group `label` on row `row`, among the
/// first `k` goals, in order.
pub open spec fn row_goal_cols(cb: &CompiledBoard, label: u8, row: i16, k: int) -> Seq<i16>
    decreases k,
{
    if k <= 0 {
        seq![]
    } else {
        let p = row_goal_cols(cb, label, row, k - 1);
        let g = cb.goal_cells@[k - 1];
        if g.1.0 == label && cb.floor()[g.0 as int].row == row {
            p.push(cb.floor()[g.0 as int].col)
        } else {
            p
        }
    }
}

/// The rows of the goals of label group `label` on column `col`, among the
/// first `k` goals, in order.
pub open spec fn col_goal_rows(cb: &CompiledBoard, label: u8, col: i16, k: int) -> Seq<i16>
    decreases k,
{
    if k <= 0 {
        seq![]
    } else {
        let p = col_goal_rows(cb, label, col, k - 1);
        let g = cb.goal_cells@[k - 1];
        if g.1.0 == label && cb.floor()[g.0 as int].col == col {
            p.push(cb.floor()[g.0 as int].row)
        } else {
            p
        }
    }
}

/// Goals at line coordinates `g1` and `g2` make boxes at `lo` and `hi` on
/// that line cross each other to reach them.
pub open spec fn crossing(g1: i16, g2: i16, lo: i16, hi: i16) -> bool {
    ||| g1 > hi && g2 < lo
    ||| g2 > hi && g1 < lo
    ||| lo < g2 && g2 < g1 && g1 < hi
    ||| g1 > lo && g1 < hi && g2 > hi
    ||| g2 > lo && g2 < hi && g1 > hi
}

/// Among the goal coordinates `gs` of a line there are two different ones
/// that make boxes at `lo < hi` on that line cross.
pub open spec fn conflict_between(gs: Seq<i16>, lo: i16, hi: i16) -> bool {
    gs.len() >= 2 && exists|x: int, y: int|
        0 <= x < gs.len() && 0 <= y < gs.len() && gs[x] != gs[y] && #[trigger] crossing(gs[x], gs[y], lo, hi)
}

/// Among the goal coordinates `gs` of a line there are two different ones
/// that make the boxes at `a` and `b` on that line cross.
pub open spec fn line_conflict(gs: Seq<i16>, a: i16, b: i16) -> bool {
    if a < b {
        conflict_between(gs, a, b)
    } else {
        conflict_between(gs, b, a)
    }
}

/// The conflicts between boxes `i` and `j`: for boxes of one label group,
/// one if they share a row with a crossing on it, and one if they share a
/// column with a crossing on it.
pub open spec fn pair_conflicts(cb: &CompiledBoard, boxes: Seq<(u16, u8)>, i: int, j: int) -> int {
    if boxes[i].1 != boxes[j].1 {
        0
    } else {
        let label = boxes[i].1;
        let pi = cb.floor()[boxes[i].0 as int];
        let pj = cb.floor()[boxes[j].0 as int];
        let g = cb.goal_cells@.len() as int;
        (if pi.row == pj.row && line_conflict(row_goal_cols(cb, label, pi.row, g), pi.col, pj.col) {
            1int
        } else {
            0int
        }) + (if pi.col == pj.col && line_conflict(col_goal_rows(cb, label, pi.col, g), pi.row, pj.row) {
            1int
        } else {
            0int
        })
    }
}

/// The conflicts of box `i` with boxes `i + 1 .. k`.
pub open spec fn conflicts_with_later(cb: &CompiledBoard, boxes: Seq<(u16, u8)>, i: int, k: int) -> int
    decreases k - i,
{
    if k <= i + 1 {
        0
    } else {
        conflicts_with_later(cb, boxes, i, k - 1) + pair_conflicts(cb, boxes, i, k - 1)
    }
}

/// The conflicts of the first `m` boxes with the boxes after them.
pub open spec fn conflicts_before(cb: &CompiledBoard, boxes: Seq<(u16, u8)>, m: int) -> int
    decreases m,
{
    if m <= 0 {
        0
    } else {
        conflicts_before(cb, boxes, m - 1) + conflicts_with_later(cb, boxes, m - 1, boxes.len() as int)
    }
}

proof fn lemma_later_bounds(cb: &CompiledBoard, boxes: Seq<(u16, u8)>, i: int, k: int)
    requires
        0 <= i,
        0 <= k,
    ensures
        0 <= conflicts_with_later(cb, boxes, i, k),
        conflicts_with_later(cb, boxes, i, k) <= 2 * k,
    decreases k - i,
{
    if k > i + 1 {
        lemma_later_bounds(cb, boxes, i, k - 1);
    }
}

proof fn lemma_before_bounds(cb: &CompiledBoard, boxes: Seq<(u16, u8)>, m: int)
    requires
        0 <= m <= boxes.len(),
    ensures
        0 <= conflicts_before(cb, boxes, m),
        conflicts_before(cb, boxes, m) <= 2 * boxes.len() * m,
    decreases m,
{
    if m > 0 {
        lemma_before_bounds(cb, boxes, m - 1);
        lemma_later_bounds(cb, boxes, m - 1, boxes.len() as int);
        assert(2 * boxes.len() * (m - 1) + 2 * boxes.len() == 2 * boxes.len() * m) by (nonlinear_arith);
    }
}

/// Goal `k` is a goal of label group `label` at row `row` and column `col`.
pub open spec fn goal_placed(cb: &CompiledBoard, k: int, label: u8, row: i16, col: i16) -> bool {
    &&& 0 <= k < cb.goal_cells@.len()
    &&& cb.goal_cells@[k].1.0 == label
    &&& cb.floor()[cb.goal_cells@[k].0 as int].row == row
    &&& cb.floor()[cb.goal_cells@[k].0 as int].col == col
}

/// The columns listed for a row hold the column of every goal of the label
/// on that row.
proof fn lemma_row_goal_listed(cb: &CompiledBoard, label: u8, row: i16, col: i16, k: int, m: int)
    requires
        goal_placed(cb, k, label, row, col),
        k < m,
    ensures
        row_goal_cols(cb, label, row, m).contains(col),
    decreases m,
{
    let p = row_goal_cols(cb, label, row, m - 1);
    if k < m - 1 {
        lemma_row_goal_listed(cb, label, row, col, k, m - 1);
        let x = choose|x: int| 0 <= x < p.len() && p[x] == col;
        assert(row_goal_cols(cb, label, row, m)[x] == col);
    } else {
        assert(row_goal_cols(cb, label, row, m) == p.push(col));
        assert(row_goal_cols(cb, label, row, m)[p.len() as int] == col);
    }
}

/// The rows listed for a column hold the row of every goal of the label on
/// that column.
proof fn lemma_col_goal_listed(cb: &CompiledBoard, label: u8, row: i16, col: i16, k: int, m: int)
    requires
        goal_placed(cb, k, label, row, col),
        k < m,
    ensures
        col_goal_rows(cb, label, col, m).contains(row),
    decreases m,
{
    let p = col_goal_rows(cb, label, col, m - 1);
    if k < m - 1 {
        lemma_col_goal_listed(cb, label, row, col, k, m - 1);
        let x = choose|x: int| 0 <= x < p.len() && p[x] == row;
        assert(col_goal_rows(cb, label, col, m)[x] == row);
    } else {
        assert(col_goal_rows(cb, label, col, m) == p.push(row));
        assert(col_goal_rows(cb, label, col, m)[p.len() as int] == row);
    }
}

/// Boxes at `a` and `b` on a line, and goals `g1`, `g2` listed for that line
/// that force them past each other: `g1` strictly between the boxes and
/// `g2` beyond the farther one, or `g1` before the nearer and `g2` beyond
/// the farther, or two different goals both strictly between them.
pub open spec fn forced_past(a: i16, b: i16, g1: i16, g2: i16) -> bool {
    let lo = if a < b { a } else { b };
    let hi = if a < b { b } else { a };
    ||| lo < g1 < hi && g2 > hi
    ||| g1 < lo && g2 > hi
    ||| lo < g1 < hi && lo < g2 < hi && g1 != g2
}

/// Goals that force the boxes past each other make them conflict on the line.
proof fn lemma_forced_conflict(gs: Seq<i16>, a: i16, b: i16, g1: i16, g2: i16)
    requires
        gs.contains(g1),
        gs.contains(g2),
        forced_past(a, b, g1, g2),
    ensures
        line_conflict(gs, a, b),
{
    let x = choose|x: int| 0 <= x < gs.len() && gs[x] == g1;
    let y = choose|y: int| 0 <= y < gs.len() && gs[y] == g2;
    assert(x != y);
    let lo = if a < b { a } else { b };
    let hi = if a < b { b } else { a };
    if g1 > g2 {
        assert(crossing(gs[x], gs[y], lo, hi));
    } else {
        assert(crossing(gs[y], gs[x], lo, hi));
    }
}

/// The conflicts of box `i` with the boxes up to `k` count those with every
/// single one of them.
proof fn lemma_later_covers(cb: &CompiledBoard, boxes: Seq<(u16, u8)>, i: int, j: int, k: int)
    requires
        0 <= i < j < k,
    ensures
        conflicts_with_later(cb, boxes, i, k) >= pair_conflicts(cb, boxes, i, j),
    decreases k - i,
{
    if k - 1 > j {
        lemma_later_covers(cb, boxes, i, j, k - 1);
    } else {
        lemma_later_bounds(cb, boxes, i, k - 1);
    }
}

/// The conflicts of the first `m` boxes count those of each of them.
proof fn lemma_before_covers(cb: &CompiledBoard, boxes: Seq<(u16, u8)>, i: int, m: int)
    requires
        0 <= i < m,
    ensures
        conflicts_before(cb, boxes, m) >= conflicts_with_later(cb, boxes, i, boxes.len() as int),
    decreases m,
{
    if m - 1 > i {
        lemma_before_covers(cb, boxes, i, m - 1);
        lemma_later_bounds(cb, boxes, m - 1, boxes.len() as int);
    } else {
        lemma_before_bounds_any(cb, boxes, m - 1);
    }
}

proof fn lemma_before_bounds_any(cb: &CompiledBoard, boxes: Seq<(u16, u8)>, m: int)
    requires
        0 <= m,
    ensures
        0 <= conflicts_before(cb, boxes, m),
    decreases m,
{
    if m > 0 {
        lemma_before_bounds_any(cb, boxes, m - 1);
        lemma_later_bounds(cb, boxes, m - 1, boxes.len() as int);
    }
}

/// Two boxes `i < j` of one label group on one row, with goals of that group
/// on the row that force them past each other (one strictly between them and
/// one beyond the right box, one on each side outside them, or two strictly
/// between them), are in linear conflict: the linear-conflict count of the
/// boxes is at least 2.
pub proof fn lemma_row_forced_conflict(cb: &CompiledBoard, boxes: Seq<(u16, u8)>, i: int, j: int, k1: int, k2: int)
    requires
        0 <= i < j < boxes.len(),
        boxes[i].1 == boxes[j].1,
        cb.floor()[boxes[i].0 as int].row == cb.floor()[boxes[j].0 as int].row,
        ({
            let row = cb.floor()[boxes[i].0 as int].row;
            let c1 = cb.floor()[cb.goal_cells@[k1].0 as int].col;
            let c2 = cb.floor()[cb.goal_cells@[k2].0 as int].col;
            &&& goal_placed(cb, k1, boxes[i].1, row, c1)
            &&& goal_placed(cb, k2, boxes[i].1, row, c2)
            &&& forced_past(cb.floor()[boxes[i].0 as int].col, cb.floor()[boxes[j].0 as int].col, c1, c2)
        }),
    ensures
        2 * conflicts_before(cb, boxes, boxes.len() as int) >= 2,
{
    let label = boxes[i].1;
    let row = cb.floor()[boxes[i].0 as int].row;
    let g = cb.goal_cells@.len() as int;
    let c1 = cb.floor()[cb.goal_cells@[k1].0 as int].col;
    let c2 = cb.floor()[cb.goal_cells@[k2].0 as int].col;
    lemma_row_goal_listed(cb, label, row, c1, k1, g);
    lemma_row_goal_listed(cb, label, row, c2, k2, g);
    lemma_forced_conflict(
        row_goal_cols(cb, label, row, g),
        cb.floor()[boxes[i].0 as int].col,
        cb.floor()[boxes[j].0 as int].col,
        c1,
        c2,
    );
    assert(pair_conflicts(cb, boxes, i, j) >= 1);
    lemma_later_covers(cb, boxes, i, j, boxes.len() as int);
    lemma_before_covers(cb, boxes, i, boxes.len() as int);
}

/// Two boxes `i < j` of one label group on one column, with goals of that
/// group on the column that force them past each other (one strictly between
/// them and one beyond the lower box, one on each side outside them, or two
/// strictly between them), are in linear conflict: the linear-conflict count
/// of the boxes is at least 2.
pub proof fn lemma_col_forced_conflict(cb: &CompiledBoard, boxes: Seq<(u16, u8)>, i: int, j: int, k1: int, k2: int)
    requires
        0 <= i < j < boxes.len(),
        boxes[i].1 == boxes[j].1,
        cb.floor()[boxes[i].0 as int].col == cb.floor()[boxes[j].0 as int].col,
        ({
            let col = cb.floor()[boxes[i].0 as int].col;
            let r1 = cb.floor()[cb.goal_cells@[k1].0 as int].row;
            let r2 = cb.floor()[cb.goal_cells@[k2].0 as int].row;
            &&& goal_placed(cb, k1, boxes[i].1, r1, col)
            &&& goal_placed(cb, k2, boxes[i].1, r2, col)
            &&& forced_past(cb.floor()[boxes[i].0 as int].row, cb.floor()[boxes[j].0 as int].row, r1, r2)
        }),
    ensures
        2 * conflicts_before(cb, boxes, boxes.len() as int) >= 2,
{
    let label = boxes[i].1;
    let col = cb.floor()[boxes[i].0 as int].col;
    let g = cb.goal_cells@.len() as int;
    let r1 = cb.floor()[cb.goal_cells@[k1].0 as int].row;
    let r2 = cb.floor()[cb.goal_cells@[k2].0 as int].row;
    lemma_col_goal_listed(cb, label, r1, col, k1, g);
    lemma_col_goal_listed(cb, label, r2, col, k2, g);
    lemma_forced_conflict(
        col_goal_rows(cb, label, col, g),
        cb.floor()[boxes[i].0 as int].row,
        cb.floor()[boxes[j].0 as int].row,
        r1,
        r2,
    );
    assert(pair_conflicts(cb, boxes, i, j) >= 1);
    lemma_later_covers(cb, boxes, i, j, boxes.len() as int);
    lemma_before_covers(cb, boxes, i, boxes.len() as int);
}

/// Counts linear conflicts: pairs of boxes of one label group on one row
/// (or column) whose goals on that line force them past each other. Each
/// conflict adds two pushes to the lower bound, since one of the boxes must
/// leave the line and come back.
pub fn count_linear_conflicts(cb: &CompiledBoard, state: &DenseState) -> (r: u32)
    requires
        cb.wf(),
        forall|i: int| 0 <= i < state.box_cells@.len() ==> (#[trigger] state.box_cells@[i]).0 < cb.cell_count,
        4 * state.box_cells@.len() * state.box_cells@.len() <= u32::MAX,
    ensures
        r == 2 * conflicts_before(cb, state.box_cells@, state.box_cells@.len() as int),
{
    let ghost bs = state.box_cells@;
    let ghost n = bs.len() as int;
    let mut conflicts: u32 = 0;
    let boxes = &state.box_cells;
    let goals = cb.goal_cells.as_slice();
    let mut i: usize = 0;
    while i < boxes.len()
        invariant
            cb.wf(),
            bs == boxes@,
            n == bs.len(),
            goals@ == cb.goal_cells@,
            forall|q: int| 0 <= q < n ==> (#[trigger] bs[q]).0 < cb.cell_count,
            4 * n * n <= u32::MAX,
            i <= n,
            conflicts == conflicts_before(cb, bs, i as int),
        decreases n - i,
    {
        let (box_i_cell, box_i_label) = boxes[i];
        let box_i_pos = cb.cell_to_pos(box_i_cell);
        proof {
            lemma_before_bounds(cb, bs, i as int);
            assert(2 * n * (i + 1) <= 2 * n * n && 2 * n * (i + 1) == 2 * n * i + 2 * n && 2 * n * n <= 4 * n * n) by (nonlinear_arith)
                requires
                    i < n,
                    n >= 0,
            ;
        }
        let mut j: usize = i + 1;
        while j < boxes.len()
            invariant
                cb.wf(),
                bs == boxes@,
                n == bs.len(),
                goals@ == cb.goal_cells@,
                forall|q: int| 0 <= q < n ==> (#[trigger] bs[q]).0 < cb.cell_count,
                4 * n * n <= u32::MAX,
                i < n,
                i + 1 <= j <= n,
                box_i_cell == bs[i as int].0,
                box_i_label == bs[i as int].1,
                box_i_pos == cb.floor()[box_i_cell as int],
                0 <= conflicts_before(cb, bs, i as int) <= 2 * n * i,
                2 * n * (i + 1) <= 2 * n * n,
                2 * n * (i + 1) == 2 * n * i + 2 * n,
                2 * n * n <= 4 * n * n,
                conflicts == conflicts_before(cb, bs, i as int) + conflicts_with_later(cb, bs, i as int, j as int),
            decreases n - j,
        {
            proof {
                lemma_later_bounds(cb, bs, i as int, j as int);
            }
            let (box_j_cell, box_j_label) = boxes[j];
            if box_i_label != box_j_label {
                j += 1;
                continue;
            }
            let box_j_pos = cb.cell_to_pos(box_j_cell);
            if box_i_pos.row == box_j_pos.row {
                conflicts = conflicts + count_row_conflicts(cb, goals, box_i_cell, box_j_cell, box_i_label);
            }
            if box_i_pos.col == box_j_pos.col {
                conflicts = conflicts + count_col_conflicts(cb, goals, box_i_cell, box_j_cell, box_i_label);
            }
            j += 1;
        }
        i += 1;
    }
    proof {
        lemma_before_bounds(cb, bs, n);
        assert(2 * (2 * n * n) == 4 * n * n) by (nonlinear_arith);
    }
    conflicts * 2
}

/// One if boxes `box_i` and `box_j`, on the row of `box_i`, must cross to
/// reach two different goals of label group `label` on that row.
fn count_row_conflicts(cb: &CompiledBoard, goals: &[(u16, Label)], box_i: u16, box_j: u16, label: u8) -> (r: u32)
    requires
        cb.wf(),
        goals@ == cb.goal_cells@,
        box_i < cb.cell_count,
        box_j < cb.cell_count,
    ensures
        r == if line_conflict(
            row_goal_cols(cb, label, cb.floor()[box_i as int].row, goals@.len() as int),
            cb.floor()[box_i as int].col,
            cb.floor()[box_j as int].col,
        ) {
            1u32
        } else {
            0u32
        },
{
    proof {
        cb.lemma_wf();
    }
    let row = cb.cell_to_pos(box_i).row;
    let bi_col = cb.cell_to_pos(box_i).col;
    let bj_col = cb.cell_to_pos(box_j).col;
    let mut row_goals: Vec<i16> = Vec::new();
    let mut k: usize = 0;
    while k < goals.len()
        invariant
            cb.wf(),
            goals@ == cb.goal_cells@,
            forall|q: int| 0 <= q < goals@.len() ==> (#[trigger] goals@[q]).0 < cb.cell_count,
            k <= goals@.len(),
            row_goals@ == row_goal_cols(cb, label, row, k as int),
        decreases goals@.len() - k,
    {
        let (g, l) = goals[k];
        let gp = cb.cell_to_pos(g);
        if l.0 == label && gp.row == row {
            row_goals.push(gp.col);
        }
        k += 1;
    }
    if row_goals.len() < 2 {
        return 0;
    }
    let (left_col, right_col) = if bi_col < bj_col {
        (bi_col, bj_col)
    } else {
        (bj_col, bi_col)
    };
    let ghost gs = row_goals@;
    let mut x: usize = 0;
    while x < row_goals.len()
        invariant
            gs == row_goals@,
            x <= gs.len(),
            gs == row_goal_cols(cb, label, cb.floor()[box_i as int].row, goals@.len() as int),
            gs.len() >= 2,
            box_i < cb.cell_count,
            box_j < cb.cell_count,
            cb.floor().len() == cb.cell_count,
            bi_col == cb.floor()[box_i as int].col,
            bj_col == cb.floor()[box_j as int].col,
            left_col == (if bi_col < bj_col { bi_col } else { bj_col }),
            right_col == (if bi_col < bj_col { bj_col } else { bi_col }),
            forall|a: int, b: int|
                0 <= a < x && 0 <= b < gs.len() && gs[a] != gs[b] ==> !#[trigger] crossing(gs[a], gs[b], left_col, right_col),
        decreases gs.len() - x,
    {
        let g1 = row_goals[x];
        let mut y: usize = 0;
        while y < row_goals.len()
            invariant
                gs == row_goals@,
                x < gs.len(),
                gs == row_goal_cols(cb, label, cb.floor()[box_i as int].row, goals@.len() as int),
                gs.len() >= 2,
                box_i < cb.cell_count,
                box_j < cb.cell_count,
                cb.floor().len() == cb.cell_count,
                bi_col == cb.floor()[box_i as int].col,
                bj_col == cb.floor()[box_j as int].col,
                left_col == (if bi_col < bj_col { bi_col } else { bj_col }),
                right_col == (if bi_col < bj_col { bj_col } else { bi_col }),
                g1 == gs[x as int],
                y <= gs.len(),
                forall|a: int, b: int|
                    0 <= a < x && 0 <= b < gs.len() && gs[a] != gs[b] ==> !#[trigger] crossing(gs[a], gs[b], left_col, right_col),
                forall|b: int| 0 <= b < y && g1 != gs[b] ==> !#[trigger] crossing(g1, gs[b], left_col, right_col),
            decreases gs.len() - y,
        {
            let g2 = row_goals[y];
            if g1 == g2 {
                y += 1;
                continue;
            }
            if g1 > right_col && g2 < left_col {
                proof {
                    assert(crossing(gs[x as int], gs[y as int], left_col, right_col));
                }
                return 1;
            }
            if g2 > right_col && g1 < left_col {
                proof {
                    assert(crossing(gs[x as int], gs[y as int], left_col, right_col));
                }
                return 1;
            }
            if left_col < g2 && g2 < g1 && g1 < right_col {
                proof {
                    assert(crossing(gs[x as int], gs[y as int], left_col, right_col));
                }
                return 1;
            }
            if left_col < g1 && g1 < g2 && g2 < right_col {
                y += 1;
                continue;
            }
            if g1 > left_col && g1 < right_col && g2 > right_col {
                proof {
                    assert(crossing(gs[x as int], gs[y as int], left_col, right_col));
                }
                return 1;
            }
            if g2 > left_col && g2 < right_col && g1 > right_col {
                proof {
                    assert(crossing(gs[x as int], gs[y as int], left_col, right_col));
                }
                return 1;
            }
            y += 1;
        }
        x += 1;
    }
    0
}

/// One if boxes `box_i` and `box_j`, on the column of `box_i`, must cross to
/// reach two different goals of label group `label` on that column.
fn count_col_conflicts(cb: &CompiledBoard, goals: &[(u16, Label)], box_i: u16, box_j: u16, label: u8) -> (r: u32)
    requires
        cb.wf(),
        goals@ == cb.goal_cells@,
        box_i < cb.cell_count,
        box_j < cb.cell_count,
    ensures
        r == if line_conflict(
            col_goal_rows(cb, label, cb.floor()[box_i as int].col, goals@.len() as int),
            cb.floor()[box_i as int].row,
            cb.floor()[box_j as int].row,
        ) {
            1u32
        } else {
            0u32
        },
{
    proof {
        cb.lemma_wf();
    }
    let col = cb.cell_to_pos(box_i).col;
    let bi_row = cb.cell_to_pos(box_i).row;
    let bj_row = cb.cell_to_pos(box_j).row;
    let mut col_goals: Vec<i16> = Vec::new();
    let mut k: usize = 0;
    while k < goals.len()
        invariant
            cb.wf(),
            goals@ == cb.goal_cells@,
            forall|q: int| 0 <= q < goals@.len() ==> (#[trigger] goals@[q]).0 < cb.cell_count,
            k <= goals@.len(),
            col_goals@ == col_goal_rows(cb, label, col, k as int),
        decreases goals@.len() - k,
    {
        let (g, l) = goals[k];
        let gp = cb.cell_to_pos(g);
        if l.0 == label && gp.col == col {
            col_goals.push(gp.row);
        }
        k += 1;
    }
    if col_goals.len() < 2 {
        return 0;
    }
    let (top_row, bottom_row) = if bi_row < bj_row {
        (bi_row, bj_row)
    } else {
        (bj_row, bi_row)
    };
    let ghost gs = col_goals@;
    let mut x: usize = 0;
    while x < col_goals.len()
        invariant
            gs == col_goals@,
            x <= gs.len(),
            gs == col_goal_rows(cb, label, cb.floor()[box_i as int].col, goals@.len() as int),
            gs.len() >= 2,
            box_i < cb.cell_count,
            box_j < cb.cell_count,
            cb.floor().len() == cb.cell_count,
            bi_row == cb.floor()[box_i as int].row,
            bj_row == cb.floor()[box_j as int].row,
            top_row == (if bi_row < bj_row { bi_row } else { bj_row }),
            bottom_row == (if bi_row < bj_row { bj_row } else { bi_row }),
            forall|a: int, b: int|
                0 <= a < x && 0 <= b < gs.len() && gs[a] != gs[b] ==> !#[trigger] crossing(gs[a], gs[b], top_row, bottom_row),
        decreases gs.len() - x,
    {
        let g1 = col_goals[x];
        let mut y: usize = 0;
        while y < col_goals.len()
            invariant
                gs == col_goals@,
                x < gs.len(),
                gs == col_goal_rows(cb, label, cb.floor()[box_i as int].col, goals@.len() as int),
                gs.len() >= 2,
                box_i < cb.cell_count,
                box_j < cb.cell_count,
                cb.floor().len() == cb.cell_count,
                bi_row == cb.floor()[box_i as int].row,
                bj_row == cb.floor()[box_j as int].row,
                top_row == (if bi_row < bj_row { bi_row } else { bj_row }),
                bottom_row == (if bi_row < bj_row { bj_row } else { bi_row }),
                g1 == gs[x as int],
                y <= gs.len(),
                forall|a: int, b: int|
                    0 <= a < x && 0 <= b < gs.len() && gs[a] != gs[b] ==> !#[trigger] crossing(gs[a], gs[b], top_row, bottom_row),
                forall|b: int| 0 <= b < y && g1 != gs[b] ==> !#[trigger] crossing(g1, gs[b], top_row, bottom_row),
            decreases gs.len() - y,
        {
            let g2 = col_goals[y];
            if g1 == g2 {
                y += 1;
                continue;
            }
            if g1 > bottom_row && g2 < top_row {
                proof {
                    assert(crossing(gs[x as int], gs[y as int], top_row, bottom_row));
                }
                return 1;
            }
            if g2 > bottom_row && g1 < top_row {
                proof {
                    assert(crossing(gs[x as int], gs[y as int], top_row, bottom_row));
                }
                return 1;
            }
            if top_row < g2 && g2 < g1 && g1 < bottom_row {
                proof {
                    assert(crossing(gs[x as int], gs[y as int], top_row, bottom_row));
                }
                return 1;
            }
            if g1 > top_row && g1 < bottom_row && g2 > bottom_row {
                proof {
                    assert(crossing(gs[x as int], gs[y as int], top_row, bottom_row));
                }
                return 1;
            }
            if g2 > top_row && g2 < bottom_row && g1 > bottom_row {
                proof {
                    assert(crossing(gs[x as int], gs[y as int], top_row, bottom_row));
                }
                return 1;
            }
            y += 1;
        }
        x += 1;
    }
    0
}

} // verus!
