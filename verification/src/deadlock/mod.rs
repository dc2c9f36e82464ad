pub mod static_dead;
pub mod two_by_two;
pub mod pattern;
pub mod pi_corral;
pub mod freeze;
pub mod goal_commitment;
pub mod tables;

use vstd::prelude::*;

use crate::compiled_board::{CompiledBoard, INVALID_CELL};
use crate::counters::SearchCounters;
use crate::reachability::sorted_cells;
use crate::topology::BoardTopology;

use self::freeze::freeze_deadlocked;
use self::goal_commitment::uncommittable;
use self::pattern::has_closed_diagonal;
use self::pi_corral::sealed_somewhere;
use self::static_dead::on_dead_cell;
use self::tables::DeadlockTable;
use self::two_by_two::jammed_somewhere;

verus! {

/// All deadlock detectors behind one interface: the board topology and the
/// precomputed deadlock table, with the cheaper detectors tried first.
pub struct DeadlockChecker {
    topo: BoardTopology,
    table: DeadlockTable,
}

/// The boxes are sorted by cell and stand on cells of the board.
pub open spec fn boxes_ok(cb: &CompiledBoard, boxes: Seq<(u16, u8)>) -> bool {
    &&& sorted_cells(boxes)
    &&& forall|i: int| 0 <= i < boxes.len() ==> (#[trigger] boxes[i]).0 < cb.cell_count
}

impl DeadlockChecker {
    /// The topology the checker holds.
    pub closed spec fn topo_view(&self) -> BoardTopology {
        self.topo
    }

    /// The deadlock table the checker holds.
    pub closed spec fn table_view(&self) -> DeadlockTable {
        self.table
    }

    /// The checker was built for `cb`.
    pub open spec fn wf(&self, cb: &CompiledBoard) -> bool {
        &&& self.topo_view().dead_cells@.len() == cb.cell_count
        &&& self.topo_view().corner_cells@.len() == cb.cell_count
        &&& self.table_view().wf(cb)
    }

    /// Every detector except the pi-corral one, in the order they are tried.
    pub open spec fn quick_detects(&self, cb: &CompiledBoard, boxes: Seq<(u16, u8)>) -> bool {
        ||| on_dead_cell(self.topo_view().dead_cells@, boxes)
        ||| jammed_somewhere(cb, boxes)
        ||| freeze_deadlocked(cb, boxes)
        ||| self.table_view().matches(boxes)
        ||| has_closed_diagonal(cb, boxes)
        ||| uncommittable(cb, boxes)
    }

    /// Builds the checker for `cb`: analyses the topology and builds the table.
    pub fn new(cb: &CompiledBoard) -> (checker: DeadlockChecker)
        requires
            cb.wf(),
        ensures
            checker.wf(cb),
            checker.topo_view().dead_cells@.len() == cb.cell_count,
    {
        let topo = BoardTopology::analyze(cb);
        let table = DeadlockTable::build(cb, &topo);
        DeadlockChecker { topo, table }
    }

    /// A checker from an analysed topology and a built table.
    pub fn from_topology(topo: BoardTopology, table: DeadlockTable) -> (checker: DeadlockChecker)
        ensures
            checker.topo_view() == topo,
            checker.table_view() == table,
    {
        DeadlockChecker { topo, table }
    }

    /// Whether some detector finds the state deadlocked; the first detector
    /// that does (static, 2x2, freeze, table, diagonal pattern, goal
    /// commitment, pi-corral, in this order) has its counter raised by one.
    pub fn is_deadlocked(&self, cb: &CompiledBoard, keeper_pos: u16, box_cells: &[(u16, u8)], counters: &mut SearchCounters) -> (b: bool)
        requires
            cb.wf(),
            self.wf(cb),
            boxes_ok(cb, box_cells@),
            keeper_pos < cb.cell_count || keeper_pos == INVALID_CELL,
            old(counters).deadlock_static < u64::MAX,
            old(counters).deadlock_two_by_two < u64::MAX,
            old(counters).deadlock_freeze < u64::MAX,
            old(counters).deadlock_table < u64::MAX,
            old(counters).deadlock_pattern < u64::MAX,
            old(counters).deadlock_goal_commitment < u64::MAX,
            old(counters).deadlock_pi_corral < u64::MAX,
        ensures
            b == (self.quick_detects(cb, box_cells@) || sealed_somewhere(cb, box_cells@, keeper_pos as int)),
            on_dead_cell(self.topo_view().dead_cells@, box_cells@) ==> *final(counters) == (SearchCounters {
                deadlock_static: (old(counters).deadlock_static + 1) as u64,
                ..*old(counters)
            }),
            !on_dead_cell(self.topo_view().dead_cells@, box_cells@) && jammed_somewhere(cb, box_cells@) ==> *final(counters) == (SearchCounters {
                deadlock_two_by_two: (old(counters).deadlock_two_by_two + 1) as u64,
                ..*old(counters)
            }),
            !on_dead_cell(self.topo_view().dead_cells@, box_cells@) && !jammed_somewhere(cb, box_cells@) && freeze_deadlocked(cb, box_cells@)
                ==> *final(counters) == (SearchCounters {
                deadlock_freeze: (old(counters).deadlock_freeze + 1) as u64,
                ..*old(counters)
            }),
            !on_dead_cell(self.topo_view().dead_cells@, box_cells@) && !jammed_somewhere(cb, box_cells@) && !freeze_deadlocked(cb, box_cells@)
                && self.table_view().matches(box_cells@) ==> *final(counters) == (SearchCounters {
                deadlock_table: (old(counters).deadlock_table + 1) as u64,
                ..*old(counters)
            }),
            !on_dead_cell(self.topo_view().dead_cells@, box_cells@) && !jammed_somewhere(cb, box_cells@) && !freeze_deadlocked(cb, box_cells@)
                && !self.table_view().matches(box_cells@) && has_closed_diagonal(cb, box_cells@) ==> *final(counters) == (SearchCounters {
                deadlock_pattern: (old(counters).deadlock_pattern + 1) as u64,
                ..*old(counters)
            }),
            !on_dead_cell(self.topo_view().dead_cells@, box_cells@) && !jammed_somewhere(cb, box_cells@) && !freeze_deadlocked(cb, box_cells@)
                && !self.table_view().matches(box_cells@) && !has_closed_diagonal(cb, box_cells@) && uncommittable(cb, box_cells@)
                ==> *final(counters) == (SearchCounters {
                deadlock_goal_commitment: (old(counters).deadlock_goal_commitment + 1) as u64,
                ..*old(counters)
            }),
            !self.quick_detects(cb, box_cells@) && sealed_somewhere(cb, box_cells@, keeper_pos as int) ==> *final(counters) == (SearchCounters {
                deadlock_pi_corral: (old(counters).deadlock_pi_corral + 1) as u64,
                ..*old(counters)
            }),
            !b ==> *final(counters) == *old(counters),
    {
        if static_dead::is_static_deadlock(&self.topo, box_cells) {
            counters.deadlock_static += 1;
            return true;
        }
        if two_by_two::is_two_by_two_deadlock(cb, box_cells) {
            counters.deadlock_two_by_two += 1;
            return true;
        }
        if freeze::is_freeze_deadlock(cb, box_cells) {
            counters.deadlock_freeze += 1;
            return true;
        }
        if self.table.is_deadlocked(box_cells) {
            counters.deadlock_table += 1;
            return true;
        }
        if pattern::is_pattern_deadlock(cb, box_cells) {
            counters.deadlock_pattern += 1;
            return true;
        }
        if goal_commitment::is_goal_commitment_deadlock(cb, box_cells) {
            counters.deadlock_goal_commitment += 1;
            return true;
        }
        if pi_corral::is_pi_corral_deadlock(cb, keeper_pos, box_cells) {
            counters.deadlock_pi_corral += 1;
            return true;
        }
        false
    }

    /// Whether some detector other than the pi-corral one finds the boxes
    /// deadlocked.
    pub fn is_deadlocked_quick(&self, cb: &CompiledBoard, box_cells: &[(u16, u8)]) -> (b: bool)
        requires
            cb.wf(),
            self.wf(cb),
            boxes_ok(cb, box_cells@),
        ensures
            b == self.quick_detects(cb, box_cells@),
    {
        static_dead::is_static_deadlock(&self.topo, box_cells)
            || two_by_two::is_two_by_two_deadlock(cb, box_cells)
            || freeze::is_freeze_deadlock(cb, box_cells)
            || self.table.is_deadlocked(box_cells)
            || pattern::is_pattern_deadlock(cb, box_cells)
            || goal_commitment::is_goal_commitment_deadlock(cb, box_cells)
    }

    /// The board topology of the checker.
    pub fn topology(&self) -> (t: &BoardTopology)
        ensures
            *t == self.topo_view(),
    {
        &self.topo
    }
}

} // verus!
