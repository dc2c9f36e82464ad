use vstd::prelude::*;

use rustc_hash::FxHashMap;

use crate::assignment::{assignment_cost, column_count, hungarian, is_assignment, well_shaped};
use crate::compiled_board::CompiledBoard;
use crate::dense_state::DenseState;
use crate::interaction_boost::{count_interaction_penalties, penalties_upto};
use crate::linear_conflict::{conflicts_before, count_linear_conflicts};
use crate::pattern_database::{
    capped, cells_of_label, goal_labels, group_entries, group_goals, groups_get, label_cells, label_goals,
    lemma_label_goals_range, pattern_built, pdb_sum, PatternDatabase,
};
use crate::types::Label;

verus! {

broadcast use vstd::std_specs::vec::group_vec_axioms;

/// Every entry of an assignment cost matrix is at most this.
pub const ASSIGNMENT_COST_CAP: u32 = 10000;

/// Added, wrapping, to a cache key to file the fast estimate apart from the
/// full one.
pub const FAST_KEY_OFFSET: u64 = 0xBEAF_FA57_5A17_0000;

/// Cached estimates by the caller's key of a state.
pub type HeuristicCache = FxHashMap<u64, u32>;

/// The entries of a cache.
pub uninterp spec fn cache_entries(c: HeuristicCache) -> Map<u64, u32>;

/// No entries.
pub open spec fn no_cache_entries() -> Map<u64, u32> {
    Map::empty()
}

/// An empty cache (`HashMap::default` with the hasher of rustc-hash).
/// Claimed: it has no entries.
#[verifier::external_body]
fn cache_new() -> (c: HeuristicCache)
    ensures
        cache_entries(c) == no_cache_entries(),
{
    FxHashMap::default()
}

/// The value stored under `key` (`HashMap::get`). Claimed: `Some` of it
/// exactly when the cache has the key.
#[verifier::external_body]
fn cache_get(c: &HeuristicCache, key: u64) -> (r: Option<u32>)
    ensures
        r == if cache_entries(*c).contains_key(key) {
            Some(cache_entries(*c)[key])
        } else {
            None::<u32>
        },
{
    c.get(&key).copied()
}

/// Stores `value` under `key` (`HashMap::insert`). Claimed: afterwards the
/// cache is the former one with `key` bound to `value`.
#[verifier::external_body]
fn cache_insert(c: &mut HeuristicCache, key: u64, value: u32)
    ensures
        cache_entries(*final(c)) == cache_entries(*old(c)).insert(key, value),
{
    c.insert(key, value);
}

/// The number of entries (`HashMap::len`). Claimed: the number of keys.
#[verifier::external_body]
fn cache_len_of(c: &HeuristicCache) -> (n: usize)
    ensures
        n == cache_entries(*c).len(),
{
    c.len()
}

/// Removes every entry (`HashMap::clear`). Claimed: afterwards the cache has
/// no entries.
#[verifier::external_body]
fn cache_clear(c: &mut HeuristicCache)
    ensures
        cache_entries(*final(c)) == no_cache_entries(),
{
    c.clear();
}

/// The goals of one label.
struct GoalGroup {
    label: Label,
    goal_indices: Vec<usize>,
}

/// A lower bound on the pushes still needed: for every label the least total
/// of reverse-push distances over the ways of matching its boxes to its
/// goals, raised by the larger of the linear-conflict and interaction
/// penalties, and never below the pattern databases. Estimates are cached
/// under the caller's key of the state.
pub struct AssignmentHeuristic {
    cache: HeuristicCache,
    goal_groups: Vec<GoalGroup>,
    pdb: PatternDatabase,
}

/// The labels of the goals, each with its goals in order.
pub open spec fn goal_groups_of(cb: &CompiledBoard) -> Seq<(u8, Seq<usize>)> {
    let n = cb.goal_cells@.len() as int;
    goal_labels(cb, n).map_values(|l: u8| (l, label_goals(cb, l, n)))
}

/// Reverse-push distance from goal `g` to `cell`, with `u32::MAX` where the
/// box cannot be brought to the goal.
pub open spec fn raw_cost(cb: &CompiledBoard, g: usize, cell: u16) -> int {
    let d = cb.push_dists(g as int)[cell as int];
    if d == u16::MAX {
        u32::MAX as int
    } else {
        d as int
    }
}

/// The raw cost, at most `ASSIGNMENT_COST_CAP`.
pub open spec fn capped_cost(cb: &CompiledBoard, g: usize, cell: u16) -> int {
    let r = raw_cost(cb, g, cell);
    if r > ASSIGNMENT_COST_CAP {
        ASSIGNMENT_COST_CAP as int
    } else {
        r
    }
}

/// No goal of the list can receive a box from `cell`.
pub open spec fn box_stranded(cb: &CompiledBoard, goals: Seq<usize>, cell: u16) -> bool {
    forall|j: int| 0 <= j < goals.len() ==> raw_cost(cb, #[trigger] goals[j], cell) == u32::MAX
}

/// Some box of the list can reach none of the goals.
pub open spec fn stranded(cb: &CompiledBoard, goals: Seq<usize>, cells: Seq<u16>) -> bool {
    exists|i: int| 0 <= i < cells.len() && box_stranded(cb, goals, #[trigger] cells[i])
}

/// The capped cost of sending box `i` to goal `a[i]`, for the first
/// `a.len()` boxes.
pub open spec fn matched_cost(cb: &CompiledBoard, goals: Seq<usize>, cells: Seq<u16>, a: Seq<usize>) -> int
    decreases a.len(),
{
    if a.len() == 0 {
        0
    } else {
        matched_cost(cb, goals, cells, a.drop_last()) + capped_cost(cb, goals[a.last() as int], cells[a.len() - 1])
    }
}

/// `c` is the least matched cost over every matching of the boxes to
/// distinct goals.
pub open spec fn is_least_cost(cb: &CompiledBoard, goals: Seq<usize>, cells: Seq<u16>, c: int) -> bool {
    &&& exists|a: Seq<usize>|
        is_assignment(a, cells.len() as int, goals.len() as int) && #[trigger] matched_cost(cb, goals, cells, a) == c
    &&& forall|a: Seq<usize>|
        is_assignment(a, cells.len() as int, goals.len() as int) ==> c <= #[trigger] matched_cost(cb, goals, cells, a)
}

/// The least matched cost of the boxes to the goals.
pub open spec fn least_cost(cb: &CompiledBoard, goals: Seq<usize>, cells: Seq<u16>) -> int {
    choose|c: int| is_least_cost(cb, goals, cells, c)
}

/// A least cost is the least cost.
pub proof fn lemma_least_cost_unique(cb: &CompiledBoard, goals: Seq<usize>, cells: Seq<u16>, c: int)
    requires
        is_least_cost(cb, goals, cells, c),
    ensures
        least_cost(cb, goals, cells) == c,
{
    let d = least_cost(cb, goals, cells);
    assert(is_least_cost(cb, goals, cells, d));
    let a = choose|a: Seq<usize>|
        is_assignment(a, cells.len() as int, goals.len() as int) && #[trigger] matched_cost(cb, goals, cells, a) == c;
    let b = choose|b: Seq<usize>|
        is_assignment(b, cells.len() as int, goals.len() as int) && #[trigger] matched_cost(cb, goals, cells, b) == d;
    assert(c <= matched_cost(cb, goals, cells, b));
    assert(d <= matched_cost(cb, goals, cells, a));
}

/// Some group, among the first `k`, has a box that can reach none of its
/// goals.
pub open spec fn any_stranded(cb: &CompiledBoard, groups: Seq<(u8, Seq<usize>)>, boxes: Seq<(u16, u8)>, k: int) -> bool {
    exists|j: int|
        0 <= j < k && stranded(cb, (#[trigger] groups[j]).1, label_cells(boxes, groups[j].0, boxes.len() as int))
}

/// The sum of the least costs of the first `k` groups.
pub open spec fn groups_total(cb: &CompiledBoard, groups: Seq<(u8, Seq<usize>)>, boxes: Seq<(u16, u8)>, k: int) -> int
    decreases k,
{
    if k <= 0 {
        0
    } else {
        groups_total(cb, groups, boxes, k - 1) + least_cost(
            cb,
            groups[k - 1].1,
            label_cells(boxes, groups[k - 1].0, boxes.len() as int),
        )
    }
}

/// Every group has no more boxes of its label than goals.
pub open spec fn boxes_fit(groups: Seq<(u8, Seq<usize>)>, boxes: Seq<(u16, u8)>) -> bool {
    forall|j: int|
        0 <= j < groups.len() ==> label_cells(boxes, (#[trigger] groups[j]).0, boxes.len() as int).len()
            <= groups[j].1.len()
}

/// The larger of the linear-conflict and interaction penalties.
pub open spec fn interference(cb: &CompiledBoard, boxes: Seq<(u16, u8)>) -> int {
    let lc = 2 * conflicts_before(cb, boxes, boxes.len() as int);
    let ip = if boxes.len() < 2 {
        0
    } else {
        penalties_upto(cb, boxes, boxes.len() as int)
    };
    if lc >= ip {
        lc
    } else {
        ip
    }
}

/// The full estimate: `u32::MAX` when a box can reach no goal of its label;
/// else the sum of the least matchings raised by the interference penalty,
/// at most `u32::MAX`, or the pattern databases' value where that is larger.
pub open spec fn estimate(
    cb: &CompiledBoard,
    groups: Seq<(u8, Seq<usize>)>,
    patterns: Seq<(u8, Seq<usize>, Map<Seq<u16>, u32>)>,
    boxes: Seq<(u16, u8)>,
) -> int {
    if any_stranded(cb, groups, boxes, groups.len() as int) {
        u32::MAX as int
    } else {
        let base = capped(groups_total(cb, groups, boxes, groups.len() as int) + interference(cb, boxes));
        let p = capped(pdb_sum(patterns, boxes, patterns.len() as int));
        if p > base {
            p
        } else {
            base
        }
    }
}

/// The goal, among the first `j` not yet used, nearest to `cell` by
/// reverse-push distance (the first of equals), with its distance;
/// `(u32::MAX, 0)` when there is none.
pub open spec fn fast_pick(cb: &CompiledBoard, goals: Seq<usize>, used: Seq<bool>, cell: u16, j: int) -> (int, int)
    decreases j,
{
    if j <= 0 {
        (u32::MAX as int, 0)
    } else {
        let prev = fast_pick(cb, goals, used, cell, j - 1);
        let d = cb.push_dists(goals[j - 1] as int)[cell as int] as int;
        if !used[j - 1] && d < prev.0 {
            (d, j - 1)
        } else {
            prev
        }
    }
}

/// The greedy matching of the first `k` boxes, each to the nearest goal not
/// yet used: the total distance and the goals used, or `None` when a box
/// finds no goal left.
pub open spec fn fast_group(cb: &CompiledBoard, goals: Seq<usize>, cells: Seq<u16>, k: int) -> Option<(int, Seq<bool>)>
    decreases k,
{
    if k <= 0 {
        Some((0, Seq::new(goals.len(), |i: int| false)))
    } else {
        match fast_group(cb, goals, cells, k - 1) {
            None => None,
            Some(p) => {
                let pick = fast_pick(cb, goals, p.1, cells[k - 1], goals.len() as int);
                if pick.0 == u32::MAX {
                    None
                } else {
                    Some((p.0 + pick.0, p.1.update(pick.1, true)))
                }
            },
        }
    }
}

/// The greedy totals of the first `k` groups summed, or `None` when one of
/// them fails.
pub open spec fn fast_total(cb: &CompiledBoard, groups: Seq<(u8, Seq<usize>)>, boxes: Seq<(u16, u8)>, k: int) -> Option<int>
    decreases k,
{
    if k <= 0 {
        Some(0)
    } else {
        match fast_total(cb, groups, boxes, k - 1) {
            None => None,
            Some(t) => {
                let cells = label_cells(boxes, groups[k - 1].0, boxes.len() as int);
                match fast_group(cb, groups[k - 1].1, cells, cells.len() as int) {
                    None => None,
                    Some(p) => Some(t + p.0),
                }
            },
        }
    }
}

/// The fast estimate: the greedy totals, at most `u32::MAX`, or `u32::MAX`
/// when a group fails.
pub open spec fn fast_estimate(cb: &CompiledBoard, groups: Seq<(u8, Seq<usize>)>, boxes: Seq<(u16, u8)>) -> int {
    match fast_total(cb, groups, boxes, groups.len() as int) {
        None => u32::MAX as int,
        Some(t) => capped(t),
    }
}

/// The cache key of the fast estimate of the state with key `k`.
pub open spec fn fast_key(k: u64) -> u64 {
    if k + FAST_KEY_OFFSET > u64::MAX {
        (k + FAST_KEY_OFFSET - 0x1_0000_0000_0000_0000) as u64
    } else {
        (k + FAST_KEY_OFFSET) as u64
    }
}

/// The capped running sum: adding to a capped sum caps as adding to the sum.
proof fn lemma_capped_add(x: int, d: int)
    requires
        x >= 0,
        d >= 0,
    ensures
        capped(capped(x) + d) == capped(x + d),
{
}

/// The cells of the boxes of a label lie where the boxes lie, and are no
/// more than the boxes.
pub proof fn lemma_label_cells_range(boxes: Seq<(u16, u8)>, l: u8, k: int, bound: int)
    requires
        0 <= k <= boxes.len(),
        forall|i: int| 0 <= i < boxes.len() ==> (#[trigger] boxes[i]).0 < bound,
    ensures
        label_cells(boxes, l, k).len() <= k,
        forall|i: int| 0 <= i < label_cells(boxes, l, k).len() ==> (#[trigger] label_cells(boxes, l, k)[i]) < bound,
    decreases k,
{
    if k > 0 {
        lemma_label_cells_range(boxes, l, k - 1, bound);
        let prev = label_cells(boxes, l, k - 1);
        assert forall|i: int| 0 <= i < label_cells(boxes, l, k).len() implies (#[trigger] label_cells(boxes, l, k)[i])
            < bound by {
            if i < prev.len() {
                assert(prev[i] < bound);
            } else {
                assert(boxes[k - 1].0 < bound);
            }
        }
    }
}

/// A failed greedy matching stays failed for more boxes.
proof fn lemma_fast_group_none(cb: &CompiledBoard, goals: Seq<usize>, cells: Seq<u16>, k1: int, k2: int)
    requires
        0 <= k1 <= k2,
        fast_group(cb, goals, cells, k1) is None,
    ensures
        fast_group(cb, goals, cells, k2) is None,
    decreases k2 - k1,
{
    if k1 < k2 {
        lemma_fast_group_none(cb, goals, cells, k1, k2 - 1);
    }
}

/// A failed group leaves the greedy totals failed.
proof fn lemma_fast_total_none(cb: &CompiledBoard, groups: Seq<(u8, Seq<usize>)>, boxes: Seq<(u16, u8)>, k1: int, k2: int)
    requires
        0 <= k1 <= k2,
        fast_total(cb, groups, boxes, k1) is None,
    ensures
        fast_total(cb, groups, boxes, k2) is None,
    decreases k2 - k1,
{
    if k1 < k2 {
        lemma_fast_total_none(cb, groups, boxes, k1, k2 - 1);
    }
}

/// The greedy pick returns a goal of the list, unused, when it returns a
/// distance, and a distance below `u32::MAX` only then.
proof fn lemma_fast_pick(cb: &CompiledBoard, goals: Seq<usize>, used: Seq<bool>, cell: u16, j: int)
    requires
        0 <= j <= goals.len(),
        used.len() == goals.len(),
    ensures
        0 <= fast_pick(cb, goals, used, cell, j).1 < goals.len() || fast_pick(cb, goals, used, cell, j).1 == 0,
        fast_pick(cb, goals, used, cell, j).0 <= u32::MAX,
        fast_pick(cb, goals, used, cell, j).0 >= 0,
        fast_pick(cb, goals, used, cell, j).0 != u32::MAX ==> fast_pick(cb, goals, used, cell, j).1 < j,
    decreases j,
{
    if j > 0 {
        lemma_fast_pick(cb, goals, used, cell, j - 1);
    }
}

/// A cost matrix whose entries are the capped costs prices every matching as
/// the matched cost does.
proof fn lemma_costs_agree(cb: &CompiledBoard, goals: Seq<usize>, cells: Seq<u16>, m: Seq<Vec<u32>>, a: Seq<usize>)
    requires
        m.len() == cells.len(),
        forall|i: int| 0 <= i < m.len() ==> (#[trigger] m[i])@.len() == goals.len(),
        forall|i: int, j: int|
            0 <= i < m.len() && 0 <= j < goals.len() ==> (#[trigger] m[i]@[j]) == capped_cost(cb, goals[j], cells[i]),
        a.len() <= cells.len(),
        forall|i: int| 0 <= i < a.len() ==> (#[trigger] a[i]) < goals.len(),
    ensures
        assignment_cost(m, a) == matched_cost(cb, goals, cells, a),
    decreases a.len(),
{
    if a.len() > 0 {
        let p = a.drop_last();
        assert forall|i: int| 0 <= i < p.len() implies (#[trigger] p[i]) < goals.len() by {
            assert(p[i] == a[i]);
        }
        lemma_costs_agree(cb, goals, cells, m, p);
        let r = a.len() - 1;
        assert(m[r]@[a.last() as int] == capped_cost(cb, goals[a.last() as int], cells[r]));
    }
}

/// Box `i` to goal `i`, for the first `k` boxes.
pub open spec fn in_order(k: int) -> Seq<usize> {
    Seq::new(k as nat, |i: int| i as usize)
}

/// Matching the boxes to the goals in order costs at most the cap per box.
proof fn lemma_in_order_cost(cb: &CompiledBoard, goals: Seq<usize>, cells: Seq<u16>, k: int)
    requires
        0 <= k <= cells.len(),
        k <= goals.len(),
        goals.len() <= usize::MAX,
    ensures
        is_assignment(in_order(k), k, goals.len() as int),
        matched_cost(cb, goals, cells, in_order(k)) <= ASSIGNMENT_COST_CAP * k,
    decreases k,
{
    if k > 0 {
        lemma_in_order_cost(cb, goals, cells, k - 1);
        assert(in_order(k).drop_last() =~= in_order(k - 1));
    }
}

/// No box at all costs nothing.
proof fn lemma_no_boxes_cost(cb: &CompiledBoard, goals: Seq<usize>, cells: Seq<u16>)
    requires
        cells.len() == 0,
    ensures
        least_cost(cb, goals, cells) == 0,
{
    let e: Seq<usize> = seq![];
    assert(is_assignment(e, 0, goals.len() as int));
    assert(matched_cost(cb, goals, cells, e) == 0);
    assert forall|a: Seq<usize>| is_assignment(a, cells.len() as int, goals.len() as int) implies 0 <= #[trigger] matched_cost(
        cb,
        goals,
        cells,
        a,
    ) by {
        assert(a.len() == 0);
    }
    lemma_least_cost_unique(cb, goals, cells, 0);
}

/// The capped cost matrix of the boxes at `cells` against the goals, or
/// `None` when some box can reach none of the goals.
fn group_costs(cb: &CompiledBoard, goals: &Vec<usize>, cells: &Vec<u16>) -> (r: Option<Vec<Vec<u32>>>)
    requires
        cb.wf(),
        forall|i: int| 0 <= i < goals@.len() ==> (#[trigger] goals@[i]) < cb.goal_cells@.len(),
        forall|i: int| 0 <= i < cells@.len() ==> (#[trigger] cells@[i]) < cb.cell_count,
    ensures
        r is None <==> stranded(cb, goals@, cells@),
        r matches Some(m) ==> {
            &&& m@.len() == cells@.len()
            &&& forall|i: int| 0 <= i < m@.len() ==> (#[trigger] m@[i])@.len() == goals@.len()
            &&& forall|i: int, j: int|
                0 <= i < m@.len() && 0 <= j < goals@.len() ==> (#[trigger] m@[i]@[j]) == capped_cost(
                    cb,
                    goals@[j],
                    cells@[i],
                )
        },
{
    let mut m: Vec<Vec<u32>> = Vec::new();
    let mut bi: usize = 0;
    while bi < cells.len()
        invariant
            cb.wf(),
            forall|i: int| 0 <= i < goals@.len() ==> (#[trigger] goals@[i]) < cb.goal_cells@.len(),
            forall|i: int| 0 <= i < cells@.len() ==> (#[trigger] cells@[i]) < cb.cell_count,
            bi <= cells@.len(),
            m@.len() == bi,
            forall|i: int| 0 <= i < m@.len() ==> (#[trigger] m@[i])@.len() == goals@.len(),
            forall|i: int, j: int|
                0 <= i < m@.len() && 0 <= j < goals@.len() ==> (#[trigger] m@[i]@[j]) == capped_cost(cb, goals@[j], cells@[i]),
            forall|i: int| 0 <= i < bi ==> !box_stranded(cb, goals@, #[trigger] cells@[i]),
        decreases cells@.len() - bi,
    {
        let cell = cells[bi];
        let mut row: Vec<u32> = Vec::new();
        let mut all_unreachable = true;
        let mut j: usize = 0;
        while j < goals.len()
            invariant
                cb.wf(),
                forall|i: int| 0 <= i < goals@.len() ==> (#[trigger] goals@[i]) < cb.goal_cells@.len(),
                cell < cb.cell_count,
                j <= goals@.len(),
                row@.len() == j,
                forall|k: int| 0 <= k < j ==> (#[trigger] row@[k]) == capped_cost(cb, goals@[k], cell),
                all_unreachable <==> forall|k: int| 0 <= k < j ==> raw_cost(cb, #[trigger] goals@[k], cell) == u32::MAX,
            decreases goals@.len() - j,
        {
            let d = cb.reverse_push_distance(goals[j], cell);
            let raw: u32 = if d == u16::MAX {
                u32::MAX
            } else {
                d as u32
            };
            if raw != u32::MAX {
                all_unreachable = false;
            }
            let capped_raw = if raw > ASSIGNMENT_COST_CAP {
                ASSIGNMENT_COST_CAP
            } else {
                raw
            };
            row.push(capped_raw);
            proof {
                assert(raw_cost(cb, goals@[j as int], cell) == raw as int);
            }
            j += 1;
        }
        if all_unreachable {
            proof {
                assert(box_stranded(cb, goals@, cells@[bi as int]));
            }
            return None;
        }
        m.push(row);
        bi += 1;
    }
    proof {
        assert(!stranded(cb, goals@, cells@));
    }
    Some(m)
}

impl AssignmentHeuristic {
    /// The cached estimates by key.
    pub closed spec fn cache_view(&self) -> Map<u64, u32> {
        cache_entries(self.cache)
    }

    /// The goal groups: label and goals of each.
    pub closed spec fn groups_view(&self) -> Seq<(u8, Seq<usize>)> {
        self.goal_groups@.map_values(|g: GoalGroup| (g.label.0, g.goal_indices@))
    }

    /// The pattern databases' patterns.
    pub closed spec fn pdb_view(&self) -> Seq<(u8, Seq<usize>, Map<Seq<u16>, u32>)> {
        self.pdb.view_patterns()
    }

    /// Built for `cb`: a group for every goal label, in the order the labels
    /// first appear, and pattern databases built from its goals.
    pub open spec fn built_for(&self, cb: &CompiledBoard) -> bool {
        &&& self.groups_view() == goal_groups_of(cb)
        &&& forall|i: int| 0 <= i < self.pdb_view().len() ==> pattern_built(cb, #[trigger] self.pdb_view()[i])
    }

    /// The estimator for `cb`, with an empty cache.
    pub fn new(cb: &CompiledBoard) -> (h: Self)
        requires
            cb.wf(),
        ensures
            h.built_for(cb),
            h.cache_view() == no_cache_entries(),
    {
        let ghost n = cb.goal_cells@.len() as int;
        let (groups, labels) = group_goals(cb);
        let mut goal_groups: Vec<GoalGroup> = Vec::new();
        let mut i: usize = 0;
        while i < labels.len()
            invariant
                n == cb.goal_cells@.len(),
                labels@ == goal_labels(cb, n),
                forall|l: u8| #[trigger] group_entries(groups).contains_key(l) <==> goal_labels(cb, n).contains(l),
                forall|l: u8|
                    #[trigger] group_entries(groups).contains_key(l) ==> group_entries(groups)[l] == label_goals(cb, l, n),
                i <= labels@.len(),
                goal_groups@.len() == i,
                forall|j: int|
                    0 <= j < i ==> (#[trigger] goal_groups@[j]).label.0 == labels@[j] && goal_groups@[j].goal_indices@
                        == label_goals(cb, labels@[j], n),
            decreases labels@.len() - i,
        {
            let l = labels[i];
            proof {
                assert(goal_labels(cb, n).contains(l)) by {
                    assert(labels@[i as int] == l);
                }
            }
            let goals = match groups_get(&groups, l) {
                Some(g) => g,
                None => Vec::new(),
            };
            goal_groups.push(GoalGroup { label: Label(l), goal_indices: goals });
            i += 1;
        }
        let pdb = PatternDatabase::build(cb);
        let h = AssignmentHeuristic { cache: cache_new(), goal_groups, pdb };
        proof {
            assert(h.groups_view() =~= goal_groups_of(cb));
        }
        h
    }

    /// The full estimate of the state.
    fn compute(&self, cb: &CompiledBoard, state: &DenseState) -> (r: u32)
        requires
            cb.wf(),
            self.built_for(cb),
            forall|i: int| 0 <= i < state.box_cells@.len() ==> (#[trigger] state.box_cells@[i]).0 < cb.cell_count,
            4 * state.box_cells@.len() * state.box_cells@.len() <= u32::MAX,
            boxes_fit(goal_groups_of(cb), state.box_cells@),
            cb.goal_cells@.len() < usize::MAX,
        ensures
            r == estimate(cb, goal_groups_of(cb), self.pdb_view(), state.box_cells@),
    {
        let ghost groups = goal_groups_of(cb);
        let ghost bs = state.box_cells@;
        let ghost n = cb.goal_cells@.len() as int;
        proof {
            let len = bs.len() as int;
            assert(len <= 32768) by (nonlinear_arith)
                requires
                    4 * len * len <= u32::MAX,
                    len >= 0,
            ;
        }
        let mut total: u32 = 0;
        let mut gi: usize = 0;
        while gi < self.goal_groups.len()
            invariant
                cb.wf(),
                self.built_for(cb),
                groups == goal_groups_of(cb),
                n == cb.goal_cells@.len(),
                n < usize::MAX,
                bs == state.box_cells@,
                bs.len() <= 32768,
                boxes_fit(groups, bs),
                forall|i: int| 0 <= i < bs.len() ==> (#[trigger] bs[i]).0 < cb.cell_count,
                gi <= self.goal_groups@.len(),
                self.goal_groups@.len() == groups.len(),
                !any_stranded(cb, groups, bs, gi as int),
                groups_total(cb, groups, bs, gi as int) >= 0,
                total == capped(groups_total(cb, groups, bs, gi as int)),
            decreases self.goal_groups@.len() - gi,
        {
            let group = &self.goal_groups[gi];
            let goals = &group.goal_indices;
            let ghost l = group.label.0;
            proof {
                assert(self.groups_view()[gi as int] == (l, goals@));
                assert(groups[gi as int] == (l, goals@));
                lemma_label_goals_range(cb, l, n);
                lemma_label_cells_range(bs, l, bs.len() as int, cb.cell_count as int);
            }
            let cells = cells_of_label(&state.box_cells, group.label.0);
            let ghost gt = groups_total(cb, groups, bs, gi as int);
            if cells.len() == 0 {
                proof {
                    lemma_no_boxes_cost(cb, goals@, cells@);
                    assert(!stranded(cb, goals@, cells@));
                    assert(groups_total(cb, groups, bs, gi + 1) == gt);
                    assert(!any_stranded(cb, groups, bs, gi + 1)) by {
                        if any_stranded(cb, groups, bs, gi + 1) {
                            let j = choose|j: int|
                                0 <= j < gi + 1 && stranded(
                                    cb,
                                    (#[trigger] groups[j]).1,
                                    label_cells(bs, groups[j].0, bs.len() as int),
                                );
                            assert(j == gi);
                        }
                    }
                }
                gi += 1;
                continue;
            }
            match group_costs(cb, goals, &cells) {
                None => {
                    proof {
                        assert(any_stranded(cb, groups, bs, groups.len() as int)) by {
                            assert(stranded(cb, groups[gi as int].1, label_cells(bs, groups[gi as int].0, bs.len() as int)));
                        }
                    }
                    return u32::MAX;
                },
                Some(m) => {
                    let ghost rows = cells@.len() as int;
                    let ghost cols = goals@.len() as int;
                    proof {
                        assert(rows <= cols) by {
                            assert(label_cells(bs, groups[gi as int].0, bs.len() as int).len() <= groups[gi as int].1.len());
                        }
                        assert(column_count(m@) == cols);
                        assert(well_shaped(m@));
                        assert(cols <= n);
                        lemma_in_order_cost(cb, goals@, cells@, rows);
                        lemma_costs_agree(cb, goals@, cells@, m@, in_order(rows));
                        assert(ASSIGNMENT_COST_CAP * rows <= 10000 * 32768) by (nonlinear_arith)
                            requires
                                0 <= rows <= 32768,
                        ;
                        assert(is_assignment(in_order(rows), m@.len() as int, column_count(m@)));
                    }
                    let (c, a) = hungarian(&m);
                    proof {
                        lemma_costs_agree(cb, goals@, cells@, m@, a@);
                        assert forall|b: Seq<usize>| is_assignment(b, rows, cols) implies c <= #[trigger] matched_cost(
                            cb,
                            goals@,
                            cells@,
                            b,
                        ) by {
                            lemma_costs_agree(cb, goals@, cells@, m@, b);
                        }
                        assert(is_least_cost(cb, goals@, cells@, c as int));
                        lemma_least_cost_unique(cb, goals@, cells@, c as int);
                        assert(groups_total(cb, groups, bs, gi + 1) == gt + c);
                        lemma_capped_add(gt, c as int);
                        assert(!any_stranded(cb, groups, bs, gi + 1)) by {
                            if any_stranded(cb, groups, bs, gi + 1) {
                                let j = choose|j: int|
                                    0 <= j < gi + 1 && stranded(
                                        cb,
                                        (#[trigger] groups[j]).1,
                                        label_cells(bs, groups[j].0, bs.len() as int),
                                    );
                                assert(j == gi);
                            }
                        }
                    }
                    total = total.saturating_add(c);
                },
            }
            gi += 1;
        }
        let lc = count_linear_conflicts(cb, state);
        let ip = count_interaction_penalties(cb, &state.box_cells);
        let interfere = if lc >= ip {
            lc
        } else {
            ip
        };
        proof {
            lemma_capped_add(groups_total(cb, groups, bs, groups.len() as int), interfere as int);
        }
        total = total.saturating_add(interfere);
        let pdb_cost = self.pdb.evaluate(cb, &state.box_cells);
        if pdb_cost > total {
            total = pdb_cost;
        }
        total
    }

    /// The estimate of the state: the one cached under `cache_key` if there
    /// is one; else computed and cached there. `u32::MAX` when some box can
    /// reach no goal of its label.
    pub fn evaluate(&mut self, cb: &CompiledBoard, state: &DenseState, cache_key: u64) -> (r: u32)
        requires
            cb.wf(),
            old(self).built_for(cb),
            forall|i: int| 0 <= i < state.box_cells@.len() ==> (#[trigger] state.box_cells@[i]).0 < cb.cell_count,
            4 * state.box_cells@.len() * state.box_cells@.len() <= u32::MAX,
            boxes_fit(goal_groups_of(cb), state.box_cells@),
            cb.goal_cells@.len() < usize::MAX,
        ensures
            final(self).groups_view() == old(self).groups_view(),
            final(self).pdb_view() == old(self).pdb_view(),
            old(self).cache_view().contains_key(cache_key) ==> r == old(self).cache_view()[cache_key]
                && final(self).cache_view() == old(self).cache_view(),
            !old(self).cache_view().contains_key(cache_key) ==> r == estimate(
                cb,
                goal_groups_of(cb),
                old(self).pdb_view(),
                state.box_cells@,
            ) && final(self).cache_view() == old(self).cache_view().insert(cache_key, r),
    {
        if let Some(cached) = cache_get(&self.cache, cache_key) {
            return cached;
        }
        let result = self.compute(cb, state);
        cache_insert(&mut self.cache, cache_key, result);
        result
    }

    /// The greedy estimate of the state: every box, in order, takes the
    /// nearest goal of its label not yet taken.
    fn compute_fast(&self, cb: &CompiledBoard, state: &DenseState) -> (r: u32)
        requires
            cb.wf(),
            self.built_for(cb),
            forall|i: int| 0 <= i < state.box_cells@.len() ==> (#[trigger] state.box_cells@[i]).0 < cb.cell_count,
        ensures
            r == fast_estimate(cb, goal_groups_of(cb), state.box_cells@),
    {
        let ghost groups = goal_groups_of(cb);
        let ghost bs = state.box_cells@;
        let ghost n = cb.goal_cells@.len() as int;
        let mut total: u32 = 0;
        let mut gi: usize = 0;
        while gi < self.goal_groups.len()
            invariant
                cb.wf(),
                self.built_for(cb),
                groups == goal_groups_of(cb),
                n == cb.goal_cells@.len(),
                bs == state.box_cells@,
                forall|i: int| 0 <= i < bs.len() ==> (#[trigger] bs[i]).0 < cb.cell_count,
                gi <= self.goal_groups@.len(),
                self.goal_groups@.len() == groups.len(),
                fast_total(cb, groups, bs, gi as int) matches Some(t) && total == capped(t) && t >= 0,
            decreases self.goal_groups@.len() - gi,
        {
            let group = &self.goal_groups[gi];
            let goals = &group.goal_indices;
            let ghost l = group.label.0;
            proof {
                assert(self.groups_view()[gi as int] == (l, goals@));
                assert(groups[gi as int] == (l, goals@));
                lemma_label_goals_range(cb, l, n);
                lemma_label_cells_range(bs, l, bs.len() as int, cb.cell_count as int);
            }
            let cells = cells_of_label(&state.box_cells, group.label.0);
            let ghost t0 = fast_total(cb, groups, bs, gi as int)->0;
            let mut used: Vec<bool> = Vec::new();
            let mut u: usize = 0;
            while u < goals.len()
                invariant
                    u <= goals@.len(),
                    used@ == Seq::new(u as nat, |i: int| false),
                decreases goals@.len() - u,
            {
                used.push(false);
                proof {
                    assert(used@ =~= Seq::new((u + 1) as nat, |i: int| false));
                }
                u += 1;
            }
            let ghost mut s: int = 0;
            let mut bi: usize = 0;
            while bi < cells.len()
                invariant
                    cb.wf(),
                    goals@ == label_goals(cb, l, n),
                    forall|i: int| 0 <= i < goals@.len() ==> (#[trigger] goals@[i]) < n,
                    n == cb.goal_cells@.len(),
                    cells@ == label_cells(bs, l, bs.len() as int),
                    forall|i: int| 0 <= i < cells@.len() ==> (#[trigger] cells@[i]) < cb.cell_count,
                    bi <= cells@.len(),
                    used@.len() == goals@.len(),
                    fast_group(cb, goals@, cells@, bi as int) == Some((s, used@)),
                    s >= 0,
                    t0 >= 0,
                    total == capped(t0 + s),
                    fast_total(cb, groups, bs, gi as int) == Some(t0),
                    groups[gi as int] == (l, goals@),
                    gi < groups.len(),
                    groups == goal_groups_of(cb),
                    bs == state.box_cells@,
                decreases cells@.len() - bi,
            {
                let cell = cells[bi];
                let mut best_dist: u32 = u32::MAX;
                let mut best_gi: usize = 0;
                let mut j: usize = 0;
                while j < goals.len()
                    invariant
                        cb.wf(),
                        forall|i: int| 0 <= i < goals@.len() ==> (#[trigger] goals@[i]) < n,
                        n == cb.goal_cells@.len(),
                        cell < cb.cell_count,
                        j <= goals@.len(),
                        used@.len() == goals@.len(),
                        (best_dist as int, best_gi as int) == fast_pick(cb, goals@, used@, cell, j as int),
                    decreases goals@.len() - j,
                {
                    if !used[j] {
                        let dist = cb.reverse_push_distance(goals[j], cell) as u32;
                        if dist < best_dist {
                            best_dist = dist;
                            best_gi = j;
                        }
                    }
                    j += 1;
                }
                proof {
                    lemma_fast_pick(cb, goals@, used@, cell, goals@.len() as int);
                }
                if best_dist == u32::MAX {
                    proof {
                        assert(fast_group(cb, goals@, cells@, bi + 1) is None);
                        lemma_fast_group_none(cb, goals@, cells@, bi + 1, cells@.len() as int);
                        assert(fast_total(cb, groups, bs, gi + 1) is None);
                        lemma_fast_total_none(cb, groups, bs, gi + 1, groups.len() as int);
                    }
                    return u32::MAX;
                }
                used.set(best_gi, true);
                proof {
                    lemma_capped_add(t0 + s, best_dist as int);
                    s = s + best_dist;
                }
                total = total.saturating_add(best_dist);
                bi += 1;
            }
            proof {
                assert(fast_total(cb, groups, bs, gi + 1) == Some(t0 + s));
            }
            gi += 1;
        }
        total
    }

    /// The greedy estimate of the state, from the cache when it holds one
    /// under the key `cache_key` moved by `FAST_KEY_OFFSET`; else computed
    /// and stored there.
    pub fn fast_evaluate(&mut self, cb: &CompiledBoard, state: &DenseState, cache_key: u64) -> (r: u32)
        requires
            cb.wf(),
            old(self).built_for(cb),
            forall|i: int| 0 <= i < state.box_cells@.len() ==> (#[trigger] state.box_cells@[i]).0 < cb.cell_count,
        ensures
            final(self).groups_view() == old(self).groups_view(),
            final(self).pdb_view() == old(self).pdb_view(),
            old(self).cache_view().contains_key(fast_key(cache_key)) ==> r == old(self).cache_view()[fast_key(cache_key)]
                && final(self).cache_view() == old(self).cache_view(),
            !old(self).cache_view().contains_key(fast_key(cache_key)) ==> r == fast_estimate(
                cb,
                goal_groups_of(cb),
                state.box_cells@,
            ) && final(self).cache_view() == old(self).cache_view().insert(fast_key(cache_key), r),
    {
        let fk = cache_key.wrapping_add(FAST_KEY_OFFSET);
        proof {
            assert(fk == fast_key(cache_key));
        }
        if let Some(cached) = cache_get(&self.cache, fk) {
            return cached;
        }
        let result = self.compute_fast(cb, state);
        cache_insert(&mut self.cache, fk, result);
        result
    }

    /// The number of cached estimates.
    pub fn cache_len(&self) -> (n: usize)
        ensures
            n == self.cache_view().len(),
    {
        cache_len_of(&self.cache)
    }

    /// Forgets every cached estimate.
    pub fn clear_cache(&mut self)
        ensures
            final(self).cache_view() == no_cache_entries(),
            final(self).groups_view() == old(self).groups_view(),
            final(self).pdb_view() == old(self).pdb_view(),
    {
        cache_clear(&mut self.cache);
    }
}

} // verus!
