use vstd::prelude::*;

use crate::board::ParsedBoard;
use crate::position::{offset_in_range, spec_offset, Direction, Position};
use crate::types::{BoxEntity, BoxView, Goal, Label};

verus! {

broadcast use vstd::std_specs::vec::group_vec_axioms;

/// Dynamic game state. Transitions produce new snapshots.
#[derive(Clone, Debug)]
pub struct GameSnapshot {
    pub robot: Position,
    pub boxes: Vec<BoxEntity>,
    pub moves: u32,
    pub pushes: u32,
    pub solved: bool,
}

/// The outcome of one step: the new snapshot and what happened.
#[derive(Clone, Debug)]
pub struct SnapshotTransition {
    pub snapshot: GameSnapshot,
    pub moved: bool,
    pub pushed: bool,
    pub pushed_box_id: Option<String>,
}

/// The mathematical content of a snapshot.
#[verifier::ext_equal]
pub struct SnapshotView {
    pub robot: Position,
    pub boxes: Seq<BoxView>,
    pub moves: u32,
    pub pushes: u32,
    pub solved: bool,
}

/// The mathematical content of a transition.
#[verifier::ext_equal]
pub struct TransitionView {
    pub snapshot: SnapshotView,
    pub moved: bool,
    pub pushed: bool,
    pub pushed_box_id: Option<Seq<char>>,
}

impl View for GameSnapshot {
    type V = SnapshotView;

    open spec fn view(&self) -> SnapshotView {
        SnapshotView {
            robot: self.robot,
            boxes: self.boxes@.map_values(|b: BoxEntity| b@),
            moves: self.moves,
            pushes: self.pushes,
            solved: self.solved,
        }
    }
}

impl View for SnapshotTransition {
    type V = TransitionView;

    open spec fn view(&self) -> TransitionView {
        TransitionView {
            snapshot: self.snapshot@,
            moved: self.moved,
            pushed: self.pushed,
            pushed_box_id: match self.pushed_box_id {
                Some(id) => Some(id@),
                None => None,
            },
        }
    }
}

/// The rows of the board cover every row index below its height.
pub open spec fn rows_cover_height(board: ParsedBoard) -> bool {
    (board.height as i16) as int <= board.rows@.len()
}

/// Whether `pos` lies inside the rectangle of the board.
pub open spec fn in_bounds(board: ParsedBoard, pos: Position) -> bool {
    &&& 0 <= pos.row
    &&& 0 <= pos.col
    &&& pos.row < board.height as i16
    &&& pos.col < board.width as i16
}

/// The game treats positions outside the board, and cells whose character is
/// `O` (or missing from a short row), as walls.
pub open spec fn spec_is_wall(board: ParsedBoard, pos: Position) -> bool {
    if !in_bounds(board, pos) {
        true
    } else {
        let row = board.rows@[pos.row as int]@;
        (pos.col as int) >= row.len() || row[pos.col as int] == 'O'
    }
}

/// The index of the first box standing on `pos`.
pub open spec fn first_box_at(boxes: Seq<BoxView>, pos: Position) -> Option<int>
    decreases boxes.len(),
{
    if boxes.len() == 0 {
        None
    } else {
        match first_box_at(boxes.drop_last(), pos) {
            Some(i) => Some(i),
            None => if boxes.last().position == pos {
                Some(boxes.len() - 1)
            } else {
                None
            },
        }
    }
}

/// Some box stands on `pos`.
pub open spec fn box_at(boxes: Seq<BoxView>, pos: Position) -> bool {
    exists|i: int| 0 <= i < boxes.len() && (#[trigger] boxes[i]).position == pos
}

/// Some goal with the box's own label lies under the box.
pub open spec fn on_matching_goal(goals: Seq<Goal>, b: BoxView) -> bool {
    exists|j: int|
        0 <= j < goals.len() && (#[trigger] goals[j]).position == b.position && goals[j].label
            == b.label
}

/// Every box stands on a goal with its own label.
pub open spec fn spec_solved(board: ParsedBoard, boxes: Seq<BoxView>) -> bool {
    forall|i: int| 0 <= i < boxes.len() ==> on_matching_goal(board.goals@, #[trigger] boxes[i])
}

/// A box with label `label` may rest on `pos`: no wall is there, and no goal
/// of another label.
pub open spec fn spec_can_occupy(board: ParsedBoard, pos: Position, label: Label) -> bool {
    &&& !spec_is_wall(board, pos)
    &&& forall|j: int|
        0 <= j < board.goals@.len() && (#[trigger] board.goals@[j]).position == pos ==> board.goals@[j].label
            == label
}

/// The snapshot unchanged, nothing moved.
pub open spec fn blocked_view(s: SnapshotView) -> TransitionView {
    TransitionView { snapshot: s, moved: false, pushed: false, pushed_box_id: None }
}

/// The rule of one step: the robot walks to the neighbouring cell unless it is
/// a wall; if a box stands there, the box is pushed one cell further, unless
/// that cell is a wall, holds another box, or holds a goal of another label
/// than the box's. A walk keeps the solved flag; a push recomputes it.
pub open spec fn step_view(board: ParsedBoard, s: SnapshotView, dir: Direction) -> TransitionView {
    let target = spec_offset(s.robot, dir);
    if spec_is_wall(board, target) {
        blocked_view(s)
    } else {
        match first_box_at(s.boxes, target) {
            Some(i) => {
                let push_target = spec_offset(target, dir);
                if spec_is_wall(board, push_target) || box_at(s.boxes, push_target) || !spec_can_occupy(
                    board,
                    push_target,
                    s.boxes[i].label,
                ) {
                    blocked_view(s)
                } else {
                    let moved_box = BoxView { position: push_target, ..s.boxes[i] };
                    let boxes = s.boxes.update(i, moved_box);
                    TransitionView {
                        snapshot: SnapshotView {
                            robot: target,
                            boxes,
                            moves: (s.moves + 1) as u32,
                            pushes: (s.pushes + 1) as u32,
                            solved: spec_solved(board, boxes),
                        },
                        moved: true,
                        pushed: true,
                        pushed_box_id: Some(s.boxes[i].id),
                    }
                }
            },
            None => TransitionView {
                snapshot: SnapshotView { robot: target, moves: (s.moves + 1) as u32, ..s },
                moved: true,
                pushed: false,
                pushed_box_id: None,
            },
        }
    }
}

/// The step from `s` in `dir` stays within machine integers: the robot's
/// neighbour is representable and the move and push counters do not overflow.
pub open spec fn step_defined(board: ParsedBoard, s: SnapshotView, dir: Direction) -> bool {
    let target = spec_offset(s.robot, dir);
    &&& offset_in_range(s.robot, dir)
    &&& !spec_is_wall(board, target) ==> s.moves < u32::MAX
    &&& !spec_is_wall(board, target) && first_box_at(s.boxes, target) is Some ==> s.pushes
        < u32::MAX
}

/// The initial snapshot of a board.
pub open spec fn initial_view(board: ParsedBoard) -> SnapshotView {
    let boxes = board.initial_boxes@.map_values(|b: BoxEntity| b@);
    SnapshotView {
        robot: board.initial_robot,
        boxes,
        moves: 0,
        pushes: 0,
        solved: spec_solved(board, boxes),
    }
}

/// A copy of a list of boxes.
fn copy_boxes(boxes: &Vec<BoxEntity>) -> (out: Vec<BoxEntity>)
    ensures
        out@.map_values(|b: BoxEntity| b@) == boxes@.map_values(|b: BoxEntity| b@),
        out@.len() == boxes@.len(),
{
    let mut out: Vec<BoxEntity> = Vec::new();
    for i in 0..boxes.len()
        invariant
            out@.len() == i,
            forall|k: int| 0 <= k < i ==> #[trigger] out@[k]@ == boxes@[k]@,
    {
        out.push(boxes[i].duplicate());
    }
    assert(out@.map_values(|b: BoxEntity| b@) =~= boxes@.map_values(|b: BoxEntity| b@));
    out
}

impl GameSnapshot {
    /// A copy of the snapshot.
    pub fn duplicate(&self) -> (s: GameSnapshot)
        ensures
            s@ == self@,
    {
        GameSnapshot {
            robot: self.robot,
            boxes: copy_boxes(&self.boxes),
            moves: self.moves,
            pushes: self.pushes,
            solved: self.solved,
        }
    }
}

/// Apply one step in the given direction. Returns the new snapshot and what
/// happened; this is the single source of truth for legal transitions.
pub fn step_snapshot(board: &ParsedBoard, snapshot: &GameSnapshot, direction: Direction) -> (t:
    SnapshotTransition)
    requires
        rows_cover_height(*board),
        step_defined(*board, snapshot@, direction),
    ensures
        t@ == step_view(*board, snapshot@, direction),
{
    let target = snapshot.robot.offset(direction);

    if is_wall(board, target) {
        return blocked(snapshot);
    }

    let ghost bv = snapshot@.boxes;
    let pushed_box_index = find_box(&snapshot.boxes, target);

    if let Some(box_idx) = pushed_box_index {
        assert(in_bounds(*board, target));
        let push_target = target.offset(direction);

        if is_wall(board, push_target) || any_box(&snapshot.boxes, push_target) {
            return blocked(snapshot);
        }
        let box_label = snapshot.boxes[box_idx].label;
        if !can_occupy(board, push_target, box_label) {
            return blocked(snapshot);
        }

        let mut new_boxes = copy_boxes(&snapshot.boxes);
        let pushed_id = new_boxes[box_idx].id.clone();
        let mut moved_box = new_boxes[box_idx].duplicate();
        moved_box.position = push_target;
        new_boxes.set(box_idx, moved_box);
        let ghost nb = new_boxes@.map_values(|b: BoxEntity| b@);
        assert(nb =~= bv.update(box_idx as int, BoxView { position: push_target, ..bv[box_idx as int] }));

        let solved = check_solved(board, &new_boxes);

        SnapshotTransition {
            snapshot: GameSnapshot {
                robot: target,
                boxes: new_boxes,
                moves: snapshot.moves + 1,
                pushes: snapshot.pushes + 1,
                solved,
            },
            moved: true,
            pushed: true,
            pushed_box_id: Some(pushed_id),
        }
    } else {
        SnapshotTransition {
            snapshot: GameSnapshot {
                robot: target,
                boxes: copy_boxes(&snapshot.boxes),
                moves: snapshot.moves + 1,
                pushes: snapshot.pushes,
                solved: snapshot.solved,
            },
            moved: true,
            pushed: false,
            pushed_box_id: None,
        }
    }
}

/// The index of the first box standing on `pos`.
fn find_box(boxes: &Vec<BoxEntity>, pos: Position) -> (r: Option<usize>)
    ensures
        match r {
            Some(i) => first_box_at(boxes@.map_values(|b: BoxEntity| b@), pos) == Some(i as int)
                && i < boxes@.len(),
            None => first_box_at(boxes@.map_values(|b: BoxEntity| b@), pos) is None,
        },
{
    let ghost bv = boxes@.map_values(|b: BoxEntity| b@);
    proof {
        lemma_first_box_at_prefix(bv, pos);
    }
    for i in 0..boxes.len()
        invariant
            bv == boxes@.map_values(|b: BoxEntity| b@),
            first_box_at_from(bv, pos, 0) == first_box_at_from(bv, pos, i as int),
            first_box_at(bv, pos) == first_box_at_from(bv, pos, 0),
            bv.len() == boxes@.len(),
    {
        if boxes[i].position == pos {
            assert(bv[i as int].position == pos);
            return Some(i);
        }
        assert(bv[i as int].position != pos);
    }
    None
}

/// The first index at or after `from` of a box standing on `pos`.
pub open spec fn first_box_at_from(boxes: Seq<BoxView>, pos: Position, from: int) -> Option<int>
    decreases boxes.len() - from,
{
    if from >= boxes.len() || from < 0 {
        None
    } else if boxes[from].position == pos {
        Some(from)
    } else {
        first_box_at_from(boxes, pos, from + 1)
    }
}

proof fn lemma_first_box_at_from_none(boxes: Seq<BoxView>, pos: Position, from: int)
    requires
        0 <= from <= boxes.len(),
        forall|k: int| from <= k < boxes.len() ==> (#[trigger] boxes[k]).position != pos,
    ensures
        first_box_at_from(boxes, pos, from) is None,
    decreases boxes.len() - from,
{
    if from < boxes.len() {
        lemma_first_box_at_from_none(boxes, pos, from + 1);
    }
}

proof fn lemma_first_box_at_from_some(boxes: Seq<BoxView>, pos: Position, from: int, i: int)
    requires
        0 <= from <= i < boxes.len(),
        boxes[i].position == pos,
        forall|k: int| from <= k < i ==> (#[trigger] boxes[k]).position != pos,
    ensures
        first_box_at_from(boxes, pos, from) == Some(i),
    decreases i - from,
{
    if from < i {
        lemma_first_box_at_from_some(boxes, pos, from + 1, i);
    }
}

/// Scanning from the front finds the same box as `first_box_at`.
proof fn lemma_first_box_at_prefix(boxes: Seq<BoxView>, pos: Position)
    ensures
        first_box_at(boxes, pos) == first_box_at_from(boxes, pos, 0),
        first_box_at(boxes, pos) is Some ==> {
            let i = first_box_at(boxes, pos).unwrap();
            &&& 0 <= i < boxes.len()
            &&& boxes[i].position == pos
            &&& forall|k: int| 0 <= k < i ==> (#[trigger] boxes[k]).position != pos
        },
        first_box_at(boxes, pos) is None ==> forall|k: int|
            0 <= k < boxes.len() ==> (#[trigger] boxes[k]).position != pos,
    decreases boxes.len(),
{
    if boxes.len() > 0 {
        let prev = boxes.drop_last();
        lemma_first_box_at_prefix(prev, pos);
        assert forall|k: int| 0 <= k < prev.len() implies prev[k] == boxes[k] by {}
        match first_box_at(prev, pos) {
            Some(i) => {
                lemma_first_box_at_from_some(boxes, pos, 0, i);
            },
            None => {
                if boxes.last().position == pos {
                    lemma_first_box_at_from_some(boxes, pos, 0, boxes.len() - 1);
                } else {
                    lemma_first_box_at_from_none(boxes, pos, 0);
                }
            },
        }
    }
}

/// Whether some box stands on `pos`.
fn any_box(boxes: &Vec<BoxEntity>, pos: Position) -> (r: bool)
    ensures
        r == box_at(boxes@.map_values(|b: BoxEntity| b@), pos),
{
    let ghost bv = boxes@.map_values(|b: BoxEntity| b@);
    for i in 0..boxes.len()
        invariant
            bv == boxes@.map_values(|b: BoxEntity| b@),
            forall|k: int| 0 <= k < i ==> (#[trigger] bv[k]).position != pos,
    {
        if boxes[i].position == pos {
            assert(bv[i as int].position == pos);
            return true;
        }
    }
    false
}

fn blocked(snapshot: &GameSnapshot) -> (t: SnapshotTransition)
    ensures
        t@ == blocked_view(snapshot@),
{
    SnapshotTransition {
        snapshot: snapshot.duplicate(),
        moved: false,
        pushed: false,
        pushed_box_id: None,
    }
}

fn is_wall(board: &ParsedBoard, pos: Position) -> (w: bool)
    requires
        rows_cover_height(*board),
    ensures
        w == spec_is_wall(*board, pos),
{
    if pos.row < 0 || pos.col < 0 || pos.row >= board.height as i16 || pos.col >= board.width as i16 {
        return true;
    }
    let row: &str = board.rows[pos.row as usize].as_str();
    let col = pos.col as usize;
    let ch = if col < row.unicode_len() {
        row.get_char(col)
    } else {
        'O'
    };
    ch == 'O'
}

/// Whether a box with the given label may rest on this position. A generic
/// box may rest on floor or a generic goal, a typed box on floor or a goal of
/// its own label; a goal of a different label rejects the box.
fn can_occupy(board: &ParsedBoard, pos: Position, label: Label) -> (b: bool)
    requires
        rows_cover_height(*board),
    ensures
        b == spec_can_occupy(*board, pos, label),
{
    if is_wall(board, pos) {
        return false;
    }
    let mut j: usize = 0;
    while j < board.goals.len()
        invariant
            j <= board.goals@.len(),
            forall|k: int|
                0 <= k < j && (#[trigger] board.goals@[k]).position == pos ==> board.goals@[k].label == label,
        decreases board.goals@.len() - j,
    {
        if board.goals[j].position == pos && board.goals[j].label != label {
            return false;
        }
        j += 1;
    }
    true
}

/// Whether every box stands on a goal with its own label.
pub fn check_solved(board: &ParsedBoard, boxes: &Vec<BoxEntity>) -> (r: bool)
    ensures
        r == spec_solved(*board, boxes@.map_values(|b: BoxEntity| b@)),
{
    let ghost bv = boxes@.map_values(|b: BoxEntity| b@);
    let ghost goals = board.goals@;
    for i in 0..boxes.len()
        invariant
            bv == boxes@.map_values(|b: BoxEntity| b@),
            goals == board.goals@,
            forall|k: int| 0 <= k < i ==> on_matching_goal(goals, #[trigger] bv[k]),
    {
        let mut found = false;
        let ghost b = bv[i as int];
        assert(b.position == boxes@[i as int].position && b.label == boxes@[i as int].label);
        for j in 0..board.goals.len()
            invariant
                goals == board.goals@,
                b.position == boxes@[i as int].position,
                b.label == boxes@[i as int].label,
                0 <= i < boxes@.len(),
                found ==> on_matching_goal(goals, b),
                !found ==> forall|g: int|
                    0 <= g < j ==> !((#[trigger] goals[g]).position == b.position
                        && goals[g].label == b.label),
        {
            if board.goals[j].position == boxes[i].position && board.goals[j].label == boxes[i].label {
                assert(goals[j as int].position == b.position && goals[j as int].label == b.label);
                found = true;
            }
        }
        if !found {
            assert(!on_matching_goal(goals, bv[i as int]));
            return false;
        }
    }
    true
}

/// The snapshot at the start of a game on this board.
pub fn create_snapshot(board: &ParsedBoard) -> (s: GameSnapshot)
    ensures
        s@ == initial_view(*board),
{
    GameSnapshot {
        robot: board.initial_robot,
        boxes: copy_boxes(&board.initial_boxes),
        moves: 0,
        pushes: 0,
        solved: check_solved(board, &board.initial_boxes),
    }
}

} // verus!

verus! {

/// Exactly one box moved, by one cell, in the direction of the step.
pub open spec fn pushed_by_one(before: Seq<BoxView>, after: Seq<BoxView>, dir: Direction) -> bool {
    exists|i: int|
        0 <= i < before.len() && offset_in_range(before[i].position, dir) && (#[trigger] after[i]).position
            == spec_offset(before[i].position, dir) && forall|k: int|
            0 <= k < before.len() && k != i ==> (#[trigger] after[k]).position == before[k].position
}

/// What one step changes: a blocked step changes nothing; a step that moves
/// puts the robot on the neighbouring non-wall cell and counts one move; a push
/// counts one push and moves exactly one box by one cell in the same
/// direction; no box is ever created, lost, renamed or relabelled.
pub proof fn lemma_step_frame(board: ParsedBoard, s: SnapshotView, dir: Direction)
    requires
        step_defined(board, s, dir),
    ensures
        ({
            let t = step_view(board, s, dir);
            &&& !t.moved ==> t.snapshot == s && !t.pushed && t.pushed_box_id is None
            &&& t.pushed ==> t.moved
            &&& t.moved ==> t.snapshot.robot == spec_offset(s.robot, dir) && t.snapshot.moves
                == s.moves + 1 && !spec_is_wall(board, t.snapshot.robot)
            &&& t.snapshot.pushes == s.pushes + if t.pushed {
                1int
            } else {
                0int
            }
            &&& t.snapshot.boxes.len() == s.boxes.len()
            &&& forall|k: int|
                0 <= k < s.boxes.len() ==> (#[trigger] t.snapshot.boxes[k]).id == s.boxes[k].id
                    && t.snapshot.boxes[k].label == s.boxes[k].label
            &&& !t.pushed ==> t.snapshot.boxes == s.boxes
            &&& t.pushed ==> pushed_by_one(s.boxes, t.snapshot.boxes, dir)
        }),
{
    let target = spec_offset(s.robot, dir);
    let t = step_view(board, s, dir);
    if !spec_is_wall(board, target) {
        lemma_first_box_at_prefix(s.boxes, target);
        if let Some(i) = first_box_at(s.boxes, target) {
            if t.pushed {
                assert(in_bounds(board, target));
                assert(t.snapshot.boxes[i].position == spec_offset(s.boxes[i].position, dir));
            }
        }
    }
}

/// A sound layout: robot and boxes on non-wall cells, no two boxes on one cell,
/// and the robot not on a box.
pub open spec fn layout_ok(board: ParsedBoard, s: SnapshotView) -> bool {
    &&& !spec_is_wall(board, s.robot)
    &&& !box_at(s.boxes, s.robot)
    &&& forall|i: int| 0 <= i < s.boxes.len() ==> !spec_is_wall(board, (#[trigger] s.boxes[i]).position)
    &&& forall|i: int, j: int|
        0 <= i < s.boxes.len() && 0 <= j < s.boxes.len() && i != j ==> (#[trigger] s.boxes[i]).position
            != (#[trigger] s.boxes[j]).position
}

/// Steps keep a sound layout: boxes never enter walls or each other, and the
/// robot never stands on a wall or a box.
pub proof fn lemma_step_keeps_layout(board: ParsedBoard, s: SnapshotView, dir: Direction)
    requires
        step_defined(board, s, dir),
        layout_ok(board, s),
    ensures
        layout_ok(board, step_view(board, s, dir).snapshot),
{
    let target = spec_offset(s.robot, dir);
    let t = step_view(board, s, dir);
    if !spec_is_wall(board, target) {
        lemma_first_box_at_prefix(s.boxes, target);
        match first_box_at(s.boxes, target) {
            Some(i) => {
                let pt = spec_offset(target, dir);
                if !(spec_is_wall(board, pt) || box_at(s.boxes, pt) || !spec_can_occupy(board, pt, s.boxes[i].label)) {
                    let nb = t.snapshot.boxes;
                    assert forall|k: int| 0 <= k < nb.len() implies (#[trigger] nb[k]).position
                        != target by {
                        if k != i {
                            assert(s.boxes[k].position != s.boxes[i].position);
                        }
                    }
                    assert forall|a: int, b: int|
                        0 <= a < nb.len() && 0 <= b < nb.len() && a != b implies (#[trigger] nb[a]).position
                        != (#[trigger] nb[b]).position by {
                        if a == i {
                            assert(s.boxes[b].position == nb[b].position);
                        } else if b == i {
                            assert(s.boxes[a].position == nb[a].position);
                        } else {
                            assert(s.boxes[a].position != s.boxes[b].position);
                        }
                    }
                    assert forall|k: int| 0 <= k < nb.len() implies !spec_is_wall(
                        board,
                        (#[trigger] nb[k]).position,
                    ) by {
                        if k != i {
                            assert(nb[k] == s.boxes[k]);
                        }
                    }
                }
            },
            None => {
            },
        }
    }
}

} // verus!
