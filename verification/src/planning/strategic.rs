use vstd::prelude::*;

use crate::compiled_board::{nbrs_symmetric, CompiledBoard};
use crate::planning::adjacency::rooms_fit;
use crate::planning::corral_ordering::{boost_upto, goal_distances, CorralOrdering};
use crate::planning::doorway_scheduling::{crossing_total, doorway_crossings, max_upto, DoorwaySchedule};
use crate::planning::rooms::{count_true, rooms_are_components, RoomMap};
use crate::text::{decimal, push_decimal, push_str_chars};

verus! {

/// Puzzles with fewer boxes than this, and fewer floor cells than
/// `MIN_FLOOR_FOR_PLANNING`, are too simple for a structural plan.
pub const MIN_BOXES_FOR_PLANNING: usize = 6;

/// Puzzles with fewer floor cells than this, and fewer boxes than
/// `MIN_BOXES_FOR_PLANNING`, are too simple for a structural plan.
pub const MIN_FLOOR_FOR_PLANNING: usize = 60;

/// A plan of the board's structure for breaking ties in beam search: its
/// rooms and doorways, how far each room lies from the goals, and how many
/// doorways each box must cross. Lower evaluations mean that a state
/// follows the plan better.
pub struct StructuralPlan {
    rooms: RoomMap,
    corral: CorralOrdering,
    schedule: DoorwaySchedule,
    has_structure: bool,
}

/// A plan is worth following on a puzzle with enough boxes or floor, and
/// with more than one room or some doorway.
pub open spec fn plan_wanted(box_count: int, floor_count: int, room_count: int, doorway_count: int) -> bool {
    &&& (box_count >= MIN_BOXES_FOR_PLANNING || floor_count >= MIN_FLOOR_FOR_PLANNING)
    &&& (room_count > 1 || doorway_count > 0)
}

/// The text that sums a plan up.
pub open spec fn plan_summary(active: bool, room_count: nat, doorway_count: nat, crossings: nat) -> Seq<char> {
    if !active {
        "no structural plan (puzzle too simple)"@
    } else {
        decimal(room_count) + " rooms, "@ + decimal(doorway_count) + " doorways, max "@ + decimal(crossings)
            + " crossings"@
    }
}

/// Whether the puzzle is worth a structural plan.
fn should_plan(cb: &CompiledBoard, rooms: &RoomMap) -> (b: bool)
    ensures
        b == plan_wanted(
            cb.initial_box_cells@.len() as int,
            cb.cell_count as int,
            rooms.room_count as int,
            rooms.doorway_count as int,
        ),
{
    let box_count = cb.initial_box_cells.len();
    let floor_count = cb.cell_count as usize;
    if box_count < MIN_BOXES_FOR_PLANNING && floor_count < MIN_FLOOR_FOR_PLANNING {
        return false;
    }
    rooms.room_count > 1 || rooms.doorway_count > 0
}

impl StructuralPlan {
    /// The room map of the plan.
    pub closed spec fn room_map(&self) -> RoomMap {
        self.rooms
    }

    /// The room distances of the plan.
    pub closed spec fn ordering(&self) -> CorralOrdering {
        self.corral
    }

    /// The doorway crossings of the boxes at the start.
    pub closed spec fn doorway_schedule(&self) -> DoorwaySchedule {
        self.schedule
    }

    /// Whether the plan takes part in evaluations.
    pub closed spec fn active(&self) -> bool {
        self.has_structure
    }

    /// Analyses the rooms of the board and plans on them; the plan is
    /// active only where the puzzle is worth it.
    pub fn build(cb: &CompiledBoard) -> (p: StructuralPlan)
        requires
            cb.wf(),
            forall|i: int| 0 <= i < cb.initial_box_cells@.len() ==> (#[trigger] cb.initial_box_cells@[i]).0 < cb.cell_count,
        ensures
            rooms_fit(cb, &p.room_map()),
            p.room_map().doorway_count == count_true(p.room_map().is_doorway@),
            nbrs_symmetric(cb.nbrs()) ==> rooms_are_components(cb.nbrs(), p.room_map().is_doorway@, p.room_map().room_id@),
            p.active() == plan_wanted(
                cb.initial_box_cells@.len() as int,
                cb.cell_count as int,
                p.room_map().room_count as int,
                p.room_map().doorway_count as int,
            ),
            p.ordering().dists().len() == p.room_map().room_count,
            nbrs_symmetric(cb.nbrs()) ==> goal_distances(cb, &p.room_map(), p.ordering().dists()),
            p.doorway_schedule().crossings().len() == cb.initial_box_cells@.len(),
            nbrs_symmetric(cb.nbrs()) ==> forall|i: int|
                0 <= i < cb.initial_box_cells@.len() ==> #[trigger] p.doorway_schedule().crossings()[i] == doorway_crossings(
                    cb,
                    &p.room_map(),
                    cb.initial_box_cells@[i].0 as int,
                    cb.initial_box_cells@[i].1.0,
                ),
    {
        let rooms = RoomMap::analyze(cb);
        let has_structure = should_plan(cb, &rooms);
        let corral = CorralOrdering::build(cb, &rooms);
        let schedule = DoorwaySchedule::build(cb, &rooms);
        StructuralPlan { rooms, corral, schedule, has_structure }
    }

    /// Whether the plan is active: small puzzles of a single room get none.
    pub fn is_active(&self) -> (b: bool)
        ensures
            b == self.active(),
    {
        self.has_structure
    }

    /// How well a state follows the plan, lower being better: the room
    /// distances plus the doorway crossings of the boxes not on a goal of
    /// their label, or 0 when the plan is not active.
    pub fn evaluate_state(&self, cb: &CompiledBoard, box_cells: &[(u16, u8)]) -> (v: u32)
        requires
            cb.wf(),
            rooms_fit(cb, &self.room_map()),
            forall|i: int| 0 <= i < box_cells@.len() ==> (#[trigger] box_cells@[i]).0 < cb.cell_count,
            131070 * box_cells@.len() <= u32::MAX,
        ensures
            !self.active() ==> v == 0,
            self.active() && nbrs_symmetric(cb.nbrs()) ==> v == boost_upto(
                cb,
                &self.room_map(),
                self.ordering().dists(),
                box_cells@,
                box_cells@.len() as int,
            ) + crossing_total(cb, &self.room_map(), box_cells@, box_cells@.len() as int),
    {
        if !self.has_structure {
            return 0;
        }
        let corral_boost = self.corral.corral_boost(cb, &self.rooms, box_cells);
        let crossing_cost = self.schedule.total_crossing_priority(cb, &self.rooms, box_cells);
        corral_boost + crossing_cost
    }

    /// The room map of the plan.
    pub fn rooms(&self) -> (r: &RoomMap)
        ensures
            *r == self.room_map(),
    {
        &self.rooms
    }

    /// The number of rooms.
    pub fn room_count(&self) -> (n: u16)
        ensures
            n == self.room_map().room_count,
    {
        self.rooms.room_count
    }

    /// The number of doorways.
    pub fn doorway_count(&self) -> (n: u16)
        ensures
            n == self.room_map().doorway_count,
    {
        self.rooms.doorway_count
    }

    /// The most doorway crossings of any box at the start.
    pub fn max_doorway_crossings(&self) -> (m: u16)
        ensures
            m == max_upto(self.doorway_schedule().crossings(), self.doorway_schedule().crossings().len() as int),
    {
        self.schedule.max_crossings()
    }

    /// A line that sums the plan up.
    pub fn summary(&self) -> (s: String)
        ensures
            s@ == plan_summary(
                self.active(),
                self.room_map().room_count as nat,
                self.room_map().doorway_count as nat,
                max_upto(self.doorway_schedule().crossings(), self.doorway_schedule().crossings().len() as int) as nat,
            ),
    {
        let mut s = String::new();
        if !self.has_structure {
            push_str_chars(&mut s, "no structural plan (puzzle too simple)");
            return s;
        }
        push_decimal(&mut s, self.rooms.room_count as u64);
        push_str_chars(&mut s, " rooms, ");
        push_decimal(&mut s, self.rooms.doorway_count as u64);
        push_str_chars(&mut s, " doorways, max ");
        push_decimal(&mut s, self.schedule.max_crossings() as u64);
        push_str_chars(&mut s, " crossings");
        s
    }
}

} // verus!
