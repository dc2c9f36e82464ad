use vstd::prelude::*;

use rustc_hash::FxHashMap;
use std::collections::VecDeque;

use crate::compiled_board::{dir_of, direction_at, CompiledBoard, INVALID_CELL};
use crate::improvement::ahead;
use crate::position::Direction;
use crate::sorting::{cell_order, cells_sorted, lemma_cells_sort_unique, sort_cells};

verus! {

broadcast use vstd::std_specs::vec::group_vec_axioms;

/// The most goals in one pattern.
pub const MAX_PATTERN_SIZE: usize = 4;

/// A pattern's table stops growing once it holds more states than this.
pub const MAX_PDB_STATES: usize = 500000;

/// The table of a pattern: sorted box cells to the least pulls from the
/// goals.
pub type PdbTable = FxHashMap<Vec<u16>, u32>;

/// The entries of a pattern table, the keys taken by their cells.
pub uninterp spec fn table_entries(t: PdbTable) -> Map<Seq<u16>, u32>;

/// No entries.
pub open spec fn no_table_entries() -> Map<Seq<u16>, u32> {
    Map::empty()
}

/// An empty table (`HashMap::default` of std with the hasher of
/// rustc-hash). Claimed: it has no entries.
#[verifier::external_body]
fn table_new() -> (table: PdbTable)
    ensures
        table_entries(table) == no_table_entries(),
{
    FxHashMap::default()
}

/// The value of `key` (`HashMap::get`). Claimed: `Some` of the value exactly
/// when the table has the key; keys compare by their cells, entry by entry,
/// and the Fx hasher is deterministic.
#[verifier::external_body]
fn table_get(t: &PdbTable, key: &Vec<u16>) -> (r: Option<u32>)
    ensures
        r == if table_entries(*t).contains_key(key@) {
            Some(table_entries(*t)[key@])
        } else {
            None::<u32>
        },
{
    t.get(key).copied()
}

/// Stores `value` under `key` (`HashMap::insert`). Claimed: afterwards the
/// table is the former table with `key` bound to `value`.
#[verifier::external_body]
fn table_insert(t: &mut PdbTable, key: Vec<u16>, value: u32)
    ensures
        table_entries(*final(t)) == table_entries(*old(t)).insert(key@, value),
{
    t.insert(key, value);
}

/// The number of entries (`HashMap::len`). Claimed: the number of keys.
#[verifier::external_body]
fn table_len(t: &PdbTable) -> (n: usize)
    ensures
        n == table_entries(*t).len(),
{
    t.len()
}

/// The cells of the goals `gis`, in order.
pub open spec fn goal_cells_of(cb: &CompiledBoard, gis: Seq<usize>) -> Seq<u16> {
    gis.map_values(|gi: usize| cb.goal_cells@[gi as int].0)
}

/// The boxes of a pattern standing on its goals, sorted.
pub open spec fn pattern_start(cb: &CompiledBoard, gis: Seq<usize>) -> Seq<u16> {
    goal_cells_of(cb, gis).sort_by(cell_order())
}

/// The box at place `pi` can be pulled in direction `d`: the cell it moves
/// onto and the cell beyond, where the keeper stands, are cells, and the
/// first holds no box of the pattern.
pub open spec fn pull_ok(cb: &CompiledBoard, s: Seq<u16>, pi: int, d: Direction) -> bool {
    let from = ahead(cb, s[pi] as int, d) as int;
    &&& 0 <= pi < s.len()
    &&& s[pi] < cb.cell_count
    &&& from != INVALID_CELL
    &&& ahead(cb, from, d) != INVALID_CELL
    &&& !s.contains(from as u16)
}

/// The boxes after the box at place `pi` is pulled in direction `d`,
/// sorted again.
pub open spec fn pulled(cb: &CompiledBoard, s: Seq<u16>, pi: int, d: Direction) -> Seq<u16> {
    s.update(pi, ahead(cb, s[pi] as int, d)).sort_by(cell_order())
}

/// One pull leads from `s` to `t`.
pub open spec fn pull_link(cb: &CompiledBoard, s: Seq<u16>, t: Seq<u16>) -> bool {
    exists|pi: int, k: int| 0 <= k < 4 && #[trigger] pull_ok(cb, s, pi, dir_of(k)) && t == pulled(cb, s, pi, dir_of(k))
}

/// Step `i` of `path` is one pull.
pub open spec fn pull_step_at(cb: &CompiledBoard, path: Seq<Seq<u16>>, i: int) -> bool {
    pull_link(cb, path[i], path[i + 1])
}

/// `path` leads from `s` to `t` by `n` pulls.
pub open spec fn pull_path_of(cb: &CompiledBoard, path: Seq<Seq<u16>>, s: Seq<u16>, t: Seq<u16>, n: nat) -> bool {
    &&& path.len() == n + 1
    &&& path[0] == s
    &&& path[n as int] == t
    &&& forall|i: int| 0 <= i < n ==> #[trigger] pull_step_at(cb, path, i)
}

/// Exactly `n` pulls lead from `s` to `t`.
pub open spec fn pulls_to(cb: &CompiledBoard, s: Seq<u16>, t: Seq<u16>, n: nat) -> bool {
    exists|path: Seq<Seq<u16>>| #[trigger] pull_path_of(cb, path, s, t, n)
}

/// No pull leads from a state to itself in no pulls but itself.
proof fn lemma_pulls_zero(cb: &CompiledBoard, s: Seq<u16>, t: Seq<u16>)
    ensures
        pulls_to(cb, s, t, 0) <==> s == t,
{
    if s == t {
        assert(pull_path_of(cb, seq![s], s, s, 0));
    }
}

/// Every pull from `key` leads to a key of `m`, with a value at most one
/// more.
pub open spec fn closed(cb: &CompiledBoard, m: Map<Seq<u16>, u32>, key: Seq<u16>) -> bool {
    forall|t: Seq<u16>| #[trigger] pull_link(cb, key, t) ==> m.contains_key(t) && m[t] <= m[key] + 1
}

/// The table holds the start with 0 and, for every key, the least number of
/// pulls that lead there from the start.
pub open spec fn table_sound(cb: &CompiledBoard, start: Seq<u16>, m: Map<Seq<u16>, u32>) -> bool {
    &&& m.contains_key(start)
    &&& forall|key: Seq<u16>|
        #[trigger] m.contains_key(key) ==> pulls_to(cb, start, key, m[key] as nat) && forall|j: nat|
            j < m[key] ==> !#[trigger] pulls_to(cb, start, key, j)
}

/// One more pull extends a sequence of pulls.
proof fn lemma_pulls_step(cb: &CompiledBoard, s: Seq<u16>, m: Seq<u16>, t: Seq<u16>, n: nat)
    requires
        pulls_to(cb, s, m, n),
        pull_link(cb, m, t),
    ensures
        pulls_to(cb, s, t, n + 1),
{
    let path = choose|path: Seq<Seq<u16>>| #[trigger] pull_path_of(cb, path, s, m, n);
    let p2 = path.push(t);
    assert forall|i: int| 0 <= i < n + 1 implies #[trigger] pull_step_at(cb, p2, i) by {
        if i < n {
            assert(pull_step_at(cb, path, i));
        }
    }
    assert(pull_path_of(cb, p2, s, t, n + 1));
}

/// The last pull of a sequence of pulls.
proof fn lemma_pulls_last(cb: &CompiledBoard, s: Seq<u16>, t: Seq<u16>, n: nat) -> (mid: Seq<u16>)
    requires
        n > 0,
        pulls_to(cb, s, t, n),
    ensures
        pulls_to(cb, s, mid, (n - 1) as nat),
        pull_link(cb, mid, t),
{
    let path = choose|path: Seq<Seq<u16>>| #[trigger] pull_path_of(cb, path, s, t, n);
    let mid = path[n - 1];
    let p1 = path.take(n as int);
    assert forall|i: int| 0 <= i < n - 1 implies #[trigger] pull_step_at(cb, p1, i) by {
        assert(pull_step_at(cb, path, i));
    }
    assert(pull_path_of(cb, p1, s, mid, (n - 1) as nat));
    assert(pull_step_at(cb, path, n - 1));
    mid
}

/// Where every key below `lvl` is closed, a state that `j <= lvl` pulls reach
/// is a key with a value at most `j`.
proof fn lemma_found(cb: &CompiledBoard, start: Seq<u16>, m: Map<Seq<u16>, u32>, lvl: int, x: Seq<u16>, j: nat)
    requires
        m.contains_key(start),
        m[start] == 0,
        forall|key: Seq<u16>| #[trigger] m.contains_key(key) && m[key] < lvl ==> closed(cb, m, key),
        j <= lvl,
        pulls_to(cb, start, x, j),
    ensures
        m.contains_key(x),
        m[x] <= j,
    decreases j,
{
    if j == 0 {
        lemma_pulls_zero(cb, start, x);
    } else {
        let mid = lemma_pulls_last(cb, start, x, j);
        lemma_found(cb, start, m, lvl, mid, (j - 1) as nat);
        assert(closed(cb, m, mid));
    }
}

/// The entry `key` waits in the queue.
pub open spec fn in_q(q: Seq<(Vec<u16>, u32)>, key: Seq<u16>) -> bool {
    exists|i: int| 0 <= i < q.len() && (#[trigger] q[i]).0@ == key
}

/// The cells are cells of the board.
pub open spec fn cells_ok(cb: &CompiledBoard, s: Seq<u16>) -> bool {
    forall|i: int| 0 <= i < s.len() ==> (#[trigger] s[i]) < cb.cell_count
}

/// Whether `x` is among `items`.
fn contains_u16(items: &Vec<u16>, x: u16) -> (b: bool)
    ensures
        b == items@.contains(x),
{
    let mut i: usize = 0;
    while i < items.len()
        invariant
            i <= items@.len(),
            forall|t: int| 0 <= t < i ==> items@[t] != x,
        decreases items@.len() - i,
    {
        if items[i] == x {
            proof {
                assert(items@[i as int] == x);
            }
            return true;
        }
        i += 1;
    }
    false
}

/// The cells of `s`, with the one at place `pi` replaced by `c`, sorted.
fn replaced_sorted(s: &Vec<u16>, pi: usize, c: u16) -> (v: Vec<u16>)
    requires
        pi < s@.len(),
    ensures
        v@ == s@.update(pi as int, c).sort_by(cell_order()),
        cells_sorted(v@),
        v@.len() == s@.len(),
{
    let mut v = s.clone();
    proof {
        assert(v@ =~= s@);
    }
    v.set(pi, c);
    let ghost moved = v@;
    sort_cells(&mut v);
    proof {
        lemma_cells_sort_unique(v@, moved);
    }
    v
}

/// Cells that are cells of the board stay so after a pull.
proof fn lemma_pulled_ok(cb: &CompiledBoard, s: Seq<u16>, pi: int, d: Direction)
    requires
        cb.wf(),
        cells_ok(cb, s),
        pull_ok(cb, s, pi, d),
    ensures
        cells_ok(cb, pulled(cb, s, pi, d)),
        pulled(cb, s, pi, d).len() == s.len(),
{
    cb.lemma_wf();
    let moved = s.update(pi, ahead(cb, s[pi] as int, d));
    lemma_cell_order_total();
    moved.lemma_sort_by_ensures(cell_order());
    let t = moved.sort_by(cell_order());
    vstd::seq_lib::to_multiset_len(moved);
    vstd::seq_lib::to_multiset_len(t);
    assert forall|i: int| 0 <= i < t.len() implies (#[trigger] t[i]) < cb.cell_count by {
        let x = t[i];
        vstd::seq_lib::to_multiset_contains(t, x);
        assert(t.contains(x));
        vstd::seq_lib::to_multiset_contains(moved, x);
        let j = choose|j: int| 0 <= j < moved.len() && moved[j] == x;
        if j != pi {
            assert(moved[j] == s[j]);
        }
    }
}

proof fn lemma_cell_order_total()
    ensures
        vstd::relations::total_ordering(cell_order()),
{
    assert forall|a: u16, b: u16| #[trigger] (cell_order())(a, b) && #[trigger] (cell_order())(b, a) implies a == b by {}
}

/// The table of a pattern: a breadth-first search from the pattern's boxes
/// on its goals, pulling one box at a time, records the least pulls to every
/// state it reaches; it stops taking states from its queue once the table
/// holds more than `MAX_PDB_STATES` states. `None` when no pull is possible
/// from the goals.
pub fn build_pattern_table(cb: &CompiledBoard, goal_indices: &[usize]) -> (r: Option<PdbTable>)
    requires
        cb.wf(),
        forall|i: int| 0 <= i < goal_indices@.len() ==> (#[trigger] goal_indices@[i]) < cb.goal_cells@.len(),
        4 * goal_indices@.len() + MAX_PDB_STATES < u32::MAX,
    ensures
        r is None <==> forall|t: Seq<u16>|
            #[trigger] pull_link(cb, pattern_start(cb, goal_indices@), t) ==> t == pattern_start(cb, goal_indices@),
        r matches Some(t) ==> {
            &&& table_entries(t).len() > 1
            &&& table_sound(cb, pattern_start(cb, goal_indices@), table_entries(t))
            &&& table_entries(t).len() <= MAX_PDB_STATES ==> forall|key: Seq<u16>, n: nat|
                #[trigger] pulls_to(cb, pattern_start(cb, goal_indices@), key, n) ==> table_entries(t).contains_key(key)
        },
{
    proof {
        cb.lemma_wf();
    }
    let ghost k = goal_indices@.len() as int;
    let mut goal_cells: Vec<u16> = Vec::new();
    let mut gi: usize = 0;
    while gi < goal_indices.len()
        invariant
            cb.wf(),
            forall|i: int| 0 <= i < goal_indices@.len() ==> (#[trigger] goal_indices@[i]) < cb.goal_cells@.len(),
            gi <= goal_indices@.len(),
            goal_cells@ == goal_cells_of(cb, goal_indices@.take(gi as int)),
        decreases goal_indices@.len() - gi,
    {
        goal_cells.push(cb.goal_cells[goal_indices[gi]].0);
        proof {
            assert(goal_cells_of(cb, goal_indices@.take(gi + 1)) =~= goal_cells_of(cb, goal_indices@.take(gi as int)).push(
                cb.goal_cells@[goal_indices@[gi as int] as int].0,
            ));
        }
        gi += 1;
    }
    proof {
        assert(goal_indices@.take(gi as int) =~= goal_indices@);
    }
    let ghost start = pattern_start(cb, goal_indices@);
    let mut initial = goal_cells.clone();
    proof {
        assert(initial@ =~= goal_cells@);
    }
    let ghost unsorted = initial@;
    sort_cells(&mut initial);
    proof {
        lemma_cells_sort_unique(initial@, unsorted);
        lemma_cell_order_total();
        unsorted.lemma_sort_by_ensures(cell_order());
        assert forall|i: int| 0 <= i < initial@.len() implies (#[trigger] initial@[i]) < cb.cell_count by {
            let x = initial@[i];
            vstd::seq_lib::to_multiset_contains(initial@, x);
            assert(initial@.contains(x));
            vstd::seq_lib::to_multiset_contains(unsorted, x);
            let j = choose|j: int| 0 <= j < unsorted.len() && unsorted[j] == x;
            assert(goal_indices@[j] < cb.goal_cells@.len());
        }
        vstd::seq_lib::to_multiset_len(unsorted);
        vstd::seq_lib::to_multiset_len(initial@);
    }
    let mut table = table_new();
    let key0 = initial.clone();
    proof {
        assert(key0@ =~= initial@);
    }
    table_insert(&mut table, key0, 0);
    let mut queue: VecDeque<(Vec<u16>, u32)> = VecDeque::new();
    queue.push_back((initial, 0));
    let ghost mut level: int = 0;
    proof {
        let m = table_entries(table);
        assert(m.dom() =~= set![start]);
        lemma_pulls_zero(cb, start, start);
        assert forall|key: Seq<u16>| #[trigger] m.contains_key(key) && !in_q(queue@, key) implies closed(cb, m, key) by {
            assert(queue@[0].0@ == start);
        }
    }
    loop
        invariant_except_break
            forall|key: Seq<u16>|
                #[trigger] table_entries(table).contains_key(key) && !in_q(queue@, key) ==> closed(
                    cb,
                    table_entries(table),
                    key,
                ),
        invariant
            cb.wf(),
            crate::compiled_board::nbrs_ok(cb.nbrs(), cb.cell_count as int),
            4 * k + MAX_PDB_STATES < u32::MAX,
            start == pattern_start(cb, goal_indices@),
            start.len() == k,
            table_entries(table).dom().finite(),
            table_entries(table).len() <= MAX_PDB_STATES + 4 * k,
            table_sound(cb, start, table_entries(table)),
            table_entries(table)[start] == 0,
            forall|key: Seq<u16>|
                #[trigger] table_entries(table).contains_key(key) ==> cells_ok(cb, key) && key.len() == k
                    && table_entries(table)[key] <= level + 1 && table_entries(table)[key] <= table_entries(table).len(),
            0 <= level <= table_entries(table).len(),
            forall|i: int|
                0 <= i < queue@.len() ==> table_entries(table).contains_key((#[trigger] queue@[i]).0@)
                    && table_entries(table)[queue@[i].0@] == queue@[i].1 && level <= queue@[i].1 <= level + 1,
            forall|i: int, j: int| 0 <= i <= j < queue@.len() ==> (#[trigger] queue@[i]).1 <= (#[trigger] queue@[j]).1,
        ensures
            table_sound(cb, start, table_entries(table)),
            table_entries(table)[start] == 0,
            table_entries(table).dom().finite(),
            table_entries(table).len() <= MAX_PDB_STATES ==> forall|key: Seq<u16>|
                #[trigger] table_entries(table).contains_key(key) ==> closed(cb, table_entries(table), key),
        decreases MAX_PDB_STATES + 4 * k + 1 - table_entries(table).len(), queue@.len(),
    {
        let ghost q0 = queue@;
        let ghost m0 = table_entries(table);
        let popped = queue.pop_front();
        let (positions, dist) = match popped {
            Some(e) => e,
            None => {
                proof {
                    assert forall|key: Seq<u16>| #[trigger] table_entries(table).contains_key(key) implies closed(
                        cb,
                        table_entries(table),
                        key,
                    ) by {
                        assert(!in_q(queue@, key));
                    }
                }
                break;
            },
        };
        let n_entries = table_len(&table);
        if n_entries > MAX_PDB_STATES {
            break;
        }
        proof {
            assert(q0[0] == (positions, dist));
            assert(queue@ =~= q0.drop_first());
            level = dist as int;
        }
        let ghost s_key = positions@;
        proof {
            assert forall|key: Seq<u16>|
                #[trigger] table_entries(table).contains_key(key) && !in_q(queue@, key) && key != s_key implies closed(
                cb,
                table_entries(table),
                key,
            ) by {
                if in_q(q0, key) {
                    let i = choose|i: int| 0 <= i < q0.len() && (#[trigger] q0[i]).0@ == key;
                    if i > 0 {
                        assert(queue@[i - 1] == q0[i]);
                    }
                }
            }
        }
        let ghost q_after_pop = queue@;
        let npos = positions.len();
        let mut pi: usize = 0;
        while pi < npos
            invariant
                cb.wf(),
                crate::compiled_board::nbrs_ok(cb.nbrs(), cb.cell_count as int),
                start == pattern_start(cb, goal_indices@),
                start.len() == k,
                npos == positions@.len(),
                npos == k,
                4 * k + MAX_PDB_STATES < u32::MAX,
                s_key == positions@,
                cells_ok(cb, s_key),
                table_entries(table).contains_key(s_key),
                table_entries(table)[s_key] == dist,
                level == dist,
                m0.len() <= MAX_PDB_STATES,
                table_entries(table).dom().finite(),
                table_entries(table).len() <= m0.len() + 4 * pi,
                table_entries(table).len() - m0.len() == queue@.len() - q_after_pop.len(),
                queue@.len() >= q_after_pop.len(),
                pi <= npos,
                table_sound(cb, start, table_entries(table)),
                table_entries(table)[start] == 0,
                forall|key: Seq<u16>|
                    #[trigger] table_entries(table).contains_key(key) ==> cells_ok(cb, key) && key.len() == k
                        && table_entries(table)[key] <= level + 1 && table_entries(table)[key] <= table_entries(table).len(),
                0 <= level <= table_entries(table).len(),
                forall|i: int|
                    0 <= i < queue@.len() ==> table_entries(table).contains_key((#[trigger] queue@[i]).0@)
                        && table_entries(table)[queue@[i].0@] == queue@[i].1 && level <= queue@[i].1 <= level + 1,
                forall|i: int, j: int| 0 <= i <= j < queue@.len() ==> (#[trigger] queue@[i]).1 <= (#[trigger] queue@[j]).1,
                forall|key: Seq<u16>|
                    #[trigger] table_entries(table).contains_key(key) && !in_q(queue@, key) && key != s_key ==> closed(
                        cb,
                        table_entries(table),
                        key,
                    ),
                forall|p: int, kk: int|
                    0 <= p < pi && 0 <= kk < 4 && #[trigger] pull_ok(cb, s_key, p, dir_of(kk)) ==> table_entries(
                        table,
                    ).contains_key(pulled(cb, s_key, p, dir_of(kk))) && table_entries(table)[pulled(
                        cb,
                        s_key,
                        p,
                        dir_of(kk),
                    )] <= dist + 1,
            decreases npos - pi,
        {
            let pos = positions[pi];
            let mut kd: usize = 0;
            while kd < 4
                invariant
                    cb.wf(),
                    crate::compiled_board::nbrs_ok(cb.nbrs(), cb.cell_count as int),
                    start == pattern_start(cb, goal_indices@),
                    start.len() == k,
                    npos == positions@.len(),
                    npos == k,
                    4 * k + MAX_PDB_STATES < u32::MAX,
                    s_key == positions@,
                    cells_ok(cb, s_key),
                    table_entries(table).contains_key(s_key),
                    table_entries(table)[s_key] == dist,
                    level == dist,
                    m0.len() <= MAX_PDB_STATES,
                    table_entries(table).dom().finite(),
                    table_entries(table).len() <= m0.len() + 4 * pi + kd,
                    table_entries(table).len() - m0.len() == queue@.len() - q_after_pop.len(),
                    queue@.len() >= q_after_pop.len(),
                    pi < npos,
                    pos == s_key[pi as int],
                    kd <= 4,
                    table_sound(cb, start, table_entries(table)),
                    table_entries(table)[start] == 0,
                    forall|key: Seq<u16>|
                        #[trigger] table_entries(table).contains_key(key) ==> cells_ok(cb, key) && key.len() == k
                            && table_entries(table)[key] <= level + 1 && table_entries(table)[key] <= table_entries(
                            table,
                        ).len(),
                    0 <= level <= table_entries(table).len(),
                    forall|i: int|
                        0 <= i < queue@.len() ==> table_entries(table).contains_key((#[trigger] queue@[i]).0@)
                            && table_entries(table)[queue@[i].0@] == queue@[i].1 && level <= queue@[i].1 <= level + 1,
                    forall|i: int, j: int|
                        0 <= i <= j < queue@.len() ==> (#[trigger] queue@[i]).1 <= (#[trigger] queue@[j]).1,
                    forall|key: Seq<u16>|
                        #[trigger] table_entries(table).contains_key(key) && !in_q(queue@, key) && key != s_key ==> closed(
                            cb,
                            table_entries(table),
                            key,
                        ),
                    forall|p: int, kk: int|
                        ((0 <= p < pi && 0 <= kk < 4) || (p == pi && 0 <= kk < kd)) && #[trigger] pull_ok(
                            cb,
                            s_key,
                            p,
                            dir_of(kk),
                        ) ==> table_entries(table).contains_key(pulled(cb, s_key, p, dir_of(kk))) && table_entries(
                            table,
                        )[pulled(cb, s_key, p, dir_of(kk))] <= dist + 1,
                decreases 4 - kd,
            {
                let dir = direction_at(kd);
                let ghost kk0 = kd as int;
                kd += 1;
                let box_from = cb.neighbor(pos, dir);
                if box_from == INVALID_CELL {
                    continue;
                }
                let keeper_at = cb.neighbor(box_from, dir);
                if keeper_at == INVALID_CELL {
                    continue;
                }
                if contains_u16(&positions, box_from) {
                    continue;
                }
                let new_positions = replaced_sorted(&positions, pi, box_from);
                proof {
                    assert(pull_ok(cb, s_key, pi as int, dir_of(kk0)));
                    lemma_pulled_ok(cb, s_key, pi as int, dir);
                    assert(new_positions@ == pulled(cb, s_key, pi as int, dir_of(kk0)));
                }
                let new_dist = dist + 1;
                match table_get(&table, &new_positions) {
                    Some(existing) => {
                        if existing <= new_dist {
                            continue;
                        }
                    },
                    None => {},
                }
                proof {
                    let m = table_entries(table);
                    assert(!m.contains_key(new_positions@));
                    let t = new_positions@;
                    assert(pull_link(cb, s_key, t));
                    lemma_pulls_step(cb, start, s_key, t, dist as nat);
                    assert forall|j: nat| j < dist + 1 implies !#[trigger] pulls_to(cb, start, t, j) by {
                        if pulls_to(cb, start, t, j) {
                            assert forall|key: Seq<u16>| #[trigger] m.contains_key(key) && m[key] < dist implies closed(
                                cb,
                                m,
                                key,
                            ) by {
                                if in_q(queue@, key) {
                                    let i = choose|i: int| 0 <= i < queue@.len() && (#[trigger] queue@[i]).0@ == key;
                                }
                            }
                            lemma_found(cb, start, m, dist as int, t, j);
                        }
                    }
                }
                let key = new_positions.clone();
                proof {
                    assert(key@ =~= new_positions@);
                }
                let ghost m1 = table_entries(table);
                table_insert(&mut table, key, new_dist);
                let ghost qb = queue@;
                queue.push_back((new_positions, new_dist));
                proof {
                    let m2 = table_entries(table);
                    let t = qb.len() as int;
                    assert(m2.dom() =~= m1.dom().insert(queue@[t].0@));
                    assert(m2.len() == m1.len() + 1);
                    assert forall|i: int| 0 <= i < queue@.len() implies m2.contains_key((#[trigger] queue@[i]).0@)
                        && m2[queue@[i].0@] == queue@[i].1 && level <= queue@[i].1 <= level + 1 by {
                        if i < t {
                            assert(queue@[i] == qb[i]);
                        }
                    }
                    assert forall|key2: Seq<u16>| #[trigger] m2.contains_key(key2) && !in_q(queue@, key2) && key2 != s_key implies closed(
                        cb,
                        m2,
                        key2,
                    ) by {
                        assert(key2 != queue@[t].0@) by {
                            assert(in_q(queue@, queue@[t].0@));
                        }
                        assert(m1.contains_key(key2));
                        if in_q(qb, key2) {
                            let i = choose|i: int| 0 <= i < qb.len() && (#[trigger] qb[i]).0@ == key2;
                            assert(queue@[i] == qb[i]);
                        }
                        assert(closed(cb, m1, key2));
                        assert forall|t2: Seq<u16>| #[trigger] pull_link(cb, key2, t2) implies m2.contains_key(t2) && m2[t2]
                            <= m2[key2] + 1 by {
                            assert(m1.contains_key(t2));
                        }
                    }
                    assert forall|key2: Seq<u16>| #[trigger] m2.contains_key(key2) implies pulls_to(
                        cb,
                        start,
                        key2,
                        m2[key2] as nat,
                    ) && forall|j: nat| j < m2[key2] ==> !#[trigger] pulls_to(cb, start, key2, j) by {
                        if key2 != queue@[t].0@ {
                            assert(m1.contains_key(key2));
                        }
                    }
                }
            }
            pi += 1;
        }
        proof {
            assert forall|key: Seq<u16>| #[trigger] table_entries(table).contains_key(key) && !in_q(queue@, key) implies closed(
                cb,
                table_entries(table),
                key,
            ) by {
                if key == s_key {
                    assert forall|t: Seq<u16>| #[trigger] pull_link(cb, key, t) implies table_entries(table).contains_key(t)
                        && table_entries(table)[t] <= table_entries(table)[key] + 1 by {
                        let (p, kk) = choose|p: int, kk: int|
                            0 <= kk < 4 && #[trigger] pull_ok(cb, key, p, dir_of(kk)) && t == pulled(cb, key, p, dir_of(kk));
                    }
                }
            }
        }
    }
    let n = table_len(&table);
    proof {
        let m = table_entries(table);
        if n <= MAX_PDB_STATES {
            assert forall|key: Seq<u16>, j: nat| #[trigger] pulls_to(cb, start, key, j) implies m.contains_key(key) by {
                lemma_found(cb, start, m, j as int, key, j);
            }
        }
        if n <= 1 {
            assert(m.dom() =~= set![start]) by {
                vstd::set_lib::lemma_set_subset_finite(m.dom(), set![start]);
                if exists|x: Seq<u16>| m.contains_key(x) && x != start {
                    let x = choose|x: Seq<u16>| m.contains_key(x) && x != start;
                    assert(m.dom().contains(x) && m.dom().contains(start));
                    vstd::set_lib::lemma_len_subset(set![start, x], m.dom());
                }
            }
            assert forall|t: Seq<u16>| #[trigger] pull_link(cb, start, t) implies t == start by {
                lemma_pulls_zero(cb, start, start);
                lemma_pulls_step(cb, start, start, t, 0);
            }
        } else {
            if forall|t: Seq<u16>| #[trigger] pull_link(cb, start, t) ==> t == start {
                assert forall|key: Seq<u16>| #[trigger] m.contains_key(key) implies key == start by {
                    lemma_only_start(cb, start, key, m[key] as nat);
                }
                assert(m.dom() =~= set![start]);
            }
        }
    }
    if n > 1 {
        Some(table)
    } else {
        None
    }
}

/// When every pull from the start leads back to it, the start is all that
/// pulls reach.
proof fn lemma_only_start(cb: &CompiledBoard, start: Seq<u16>, x: Seq<u16>, n: nat)
    requires
        forall|t: Seq<u16>| #[trigger] pull_link(cb, start, t) ==> t == start,
        pulls_to(cb, start, x, n),
    ensures
        x == start,
    decreases n,
{
    if n == 0 {
        lemma_pulls_zero(cb, start, x);
    } else {
        let mid = lemma_pulls_last(cb, start, x, n);
        lemma_only_start(cb, start, mid, (n - 1) as nat);
    }
}

/// The index of the first occurrence of `x` in `items`, if any.
fn position_of(items: &[u16], x: u16) -> (r: Option<usize>)
    ensures
        match r {
            Some(i) => i < items@.len() && items@[i as int] == x && forall|t: int|
                0 <= t < i ==> (#[trigger] items@[t]) != x,
            None => forall|t: int| 0 <= t < items@.len() ==> (#[trigger] items@[t]) != x,
        },
{
    for i in 0..items.len()
        invariant
            forall|t: int| 0 <= t < i ==> (#[trigger] items@[t]) != x,
    {
        if items[i] == x {
            return Some(i);
        }
    }
    None
}

/// The lists on which the enumeration calls its callback when it extends
/// `current` to `k` items: `current` itself once it has `k` items, else the
/// lists from extending it by each item from `next_start` on.
pub open spec fn combos(items: Seq<u16>, k: int, current: Seq<u16>) -> Set<Seq<u16>>
    decreases k - current.len(), items.len() + 2,
{
    if current.len() >= k {
        set![current]
    } else {
        proof {
            lemma_first_place_range(items, current.last(), items.len() as int);
            assert(items.take(items.len() as int) =~= items);
        }
        combos_from(items, k, current, next_start(items, current))
    }
}

/// The lists from extending `current` by the items from place `i` on.
pub open spec fn combos_from(items: Seq<u16>, k: int, current: Seq<u16>, i: int) -> Set<Seq<u16>>
    decreases k - current.len(), items.len() + 1 - i,
{
    if current.len() >= k || i < 0 || i >= items.len() || items.len() - i < k - current.len() {
        Set::empty()
    } else {
        combos(items, k, current.push(items[i])).union(combos_from(items, k, current, i + 1))
    }
}

/// The callback, in some state of it, returned from a call on a slice
/// holding `c`.
pub open spec fn was_called<F: FnMut(&[u16])>(c: Seq<u16>) -> bool {
    exists|f: F, s: &[u16]| s@ == c && #[trigger] call_ensures(f, (s,), ())
}

/// Calls `callback` on every way to extend `current` to `k` items by
/// appending items that come after the last item of `current` in `items`
/// (all `k`-combinations, in lexicographic order, when `current` starts
/// empty and the items are distinct). `current` is restored afterwards.
pub fn choose_combinations<F: FnMut(&[u16])>(
    items: &[u16],
    k: usize,
    current: &mut Vec<u16>,
    callback: &mut F,
)
    requires
        old(current)@.len() <= k,
        forall|g: F, s: &[u16]| call_requires(g, (s,)),
    ensures
        final(current)@ == old(current)@,
        forall|c: Seq<u16>| #[trigger] combos(items@, k as int, old(current)@).contains(c) ==> was_called::<F>(c),
    decreases k - old(current)@.len(),
{
    if current.len() == k {
        let sl = current.as_slice();
        callback(sl);
        proof {
            assert forall|c: Seq<u16>| #[trigger] combos(items@, k as int, current@).contains(c) implies was_called::<F>(c) by {
                assert(c == current@);
                assert(call_ensures(*callback, (sl,), ()));
            }
        }
        return;
    }
    let ghost cur = current@;
    let remaining = k - current.len();
    let n = items.len();
    let start = if current.len() == 0 {
        0
    } else {
        let last = current[current.len() - 1];
        match first_position(items, last) {
            Some(p) => p + 1,
            None => 1,
        }
    };
    let mut i = start;
    while i < n
        invariant
            current@ == cur,
            cur == old(current)@,
            cur.len() < k,
            remaining == k - cur.len(),
            n == items@.len(),
            start <= i,
            start as int == next_start(items@, cur),
            forall|g: F, s: &[u16]| call_requires(g, (s,)),
            forall|c: Seq<u16>|
                #[trigger] combos_from(items@, k as int, cur, start as int).contains(c) ==> was_called::<F>(c)
                    || combos_from(items@, k as int, cur, i as int).contains(c),
        ensures
            forall|c: Seq<u16>|
                #[trigger] combos_from(items@, k as int, cur, start as int).contains(c) ==> was_called::<F>(c),
        decreases n - i,
    {
        if n - i < remaining {
            break;
        }
        current.push(items[i]);
        let ghost ext = current@;
        choose_combinations(items, k, current, callback);
        current.pop();
        proof {
            assert(current@ =~= cur);
            assert(ext == cur.push(items@[i as int]));
            assert(combos_from(items@, k as int, cur, i as int) == combos(items@, k as int, ext).union(
                combos_from(items@, k as int, cur, i + 1),
            ));
            assert forall|c: Seq<u16>| #[trigger] combos_from(items@, k as int, cur, start as int).contains(c)
                implies was_called::<F>(c) || combos_from(items@, k as int, cur, i + 1).contains(c) by {
                if combos(items@, k as int, ext).contains(c) {
                    assert(was_called::<F>(c));
                }
            }
        }
        i += 1;
    }
    proof {
        assert(combos(items@, k as int, cur) == combos_from(items@, k as int, cur, start as int));
    }
}

/// Goal indices grouped by label.
pub type GoalGroups = FxHashMap<u8, Vec<usize>>;

/// The goal lists of a grouping, by label.
pub uninterp spec fn group_entries(g: GoalGroups) -> Map<u8, Seq<usize>>;

/// No groups.
pub open spec fn no_groups() -> Map<u8, Seq<usize>> {
    Map::empty()
}

/// An empty grouping (`HashMap::default` of std with the hasher of
/// rustc-hash). Claimed: it has no groups.
#[verifier::external_body]
fn groups_new() -> (groups: GoalGroups)
    ensures
        group_entries(groups) == no_groups(),
{
    FxHashMap::default()
}

/// Appends goal `gi` to the group of `label`, which starts empty
/// (`HashMap::entry`, then `or_default` and `Vec::push`). Claimed: the
/// group of `label` is its former list (or the empty one) with `gi`
/// appended, and no other group changes.
#[verifier::external_body]
fn groups_push(groups: &mut GoalGroups, label: u8, gi: usize)
    ensures
        group_entries(*final(groups)) == group_entries(*old(groups)).insert(
            label,
            if group_entries(*old(groups)).contains_key(label) {
                group_entries(*old(groups))[label].push(gi)
            } else {
                seq![gi]
            },
        ),
{
    groups.entry(label).or_default().push(gi);
}

/// The goal list of `label` (`HashMap::get`, the list copied). Claimed:
/// `Some` of the list exactly when the grouping has the label.
#[verifier::external_body]
pub(crate) fn groups_get(groups: &GoalGroups, label: u8) -> (r: Option<Vec<usize>>)
    ensures
        match r {
            Some(v) => group_entries(*groups).contains_key(label) && v@ == group_entries(*groups)[label],
            None => !group_entries(*groups).contains_key(label),
        },
{
    groups.get(&label).cloned()
}

/// The indices, in order, of the first `k` goals that have label `l`.
pub open spec fn label_goals(cb: &CompiledBoard, l: u8, k: int) -> Seq<usize>
    decreases k,
{
    if k <= 0 {
        seq![]
    } else if cb.goal_cells@[k - 1].1.0 == l {
        label_goals(cb, l, k - 1).push((k - 1) as usize)
    } else {
        label_goals(cb, l, k - 1)
    }
}

/// The labels of the first `k` goals, each once, in the order they first
/// appear.
pub open spec fn goal_labels(cb: &CompiledBoard, k: int) -> Seq<u8>
    decreases k,
{
    if k <= 0 {
        seq![]
    } else if goal_labels(cb, k - 1).contains(cb.goal_cells@[k - 1].1.0) {
        goal_labels(cb, k - 1)
    } else {
        goal_labels(cb, k - 1).push(cb.goal_cells@[k - 1].1.0)
    }
}

/// Groups the goals by label: every label with its goals in order, and the
/// labels in the order they first appear.
pub(crate) fn group_goals(cb: &CompiledBoard) -> (r: (GoalGroups, Vec<u8>))
    ensures
        r.1@ == goal_labels(cb, cb.goal_cells@.len() as int),
        forall|l: u8|
            #[trigger] group_entries(r.0).contains_key(l) <==> goal_labels(cb, cb.goal_cells@.len() as int).contains(l),
        forall|l: u8|
            #[trigger] group_entries(r.0).contains_key(l) ==> group_entries(r.0)[l] == label_goals(
                cb,
                l,
                cb.goal_cells@.len() as int,
            ),
{
    let mut groups = groups_new();
    let mut labels: Vec<u8> = Vec::new();
    let mut gi: usize = 0;
    while gi < cb.goal_cells.len()
        invariant
            gi <= cb.goal_cells@.len(),
            labels@ == goal_labels(cb, gi as int),
            forall|l: u8| #[trigger] group_entries(groups).contains_key(l) <==> goal_labels(cb, gi as int).contains(l),
            forall|l: u8|
                #[trigger] group_entries(groups).contains_key(l) ==> group_entries(groups)[l] == label_goals(cb, l, gi as int),
            forall|l: u8| !goal_labels(cb, gi as int).contains(l) ==> #[trigger] label_goals(cb, l, gi as int) == Seq::<usize>::empty(),
        decreases cb.goal_cells@.len() - gi,
    {
        let label = cb.goal_cells[gi].1.0;
        let ghost before = labels@;
        if !contains_label(&labels, label) {
            labels.push(label);
        }
        groups_push(&mut groups, label, gi);
        proof {
            assert forall|l: u8| #[trigger] group_entries(groups).contains_key(l) <==> goal_labels(cb, gi + 1).contains(l) by {
                if l == label {
                    if !before.contains(label) {
                        assert(goal_labels(cb, gi + 1).last() == label);
                    }
                } else {
                    let after = goal_labels(cb, gi + 1);
                    if after.contains(l) {
                        let i = choose|i: int| 0 <= i < after.len() && #[trigger] after[i] == l;
                        if !before.contains(label) {
                            assert(i < before.len());
                            assert(before[i] == l);
                        }
                    }
                    if before.contains(l) {
                        let i = choose|i: int| 0 <= i < before.len() && before[i] == l;
                        if !before.contains(label) {
                            assert(goal_labels(cb, gi + 1)[i] == l);
                        }
                    }
                }
            }
            assert(goal_labels(cb, gi + 1).contains(label)) by {
                if before.contains(label) {
                    let i = choose|i: int| 0 <= i < before.len() && before[i] == label;
                    assert(goal_labels(cb, gi + 1)[i] == label);
                } else {
                    assert(goal_labels(cb, gi + 1).last() == label);
                }
            }
            assert forall|l: u8| !goal_labels(cb, gi + 1).contains(l) implies #[trigger] label_goals(cb, l, gi + 1) == Seq::<usize>::empty() by {
                assert(l != label);
                if before.contains(l) {
                    let i = choose|i: int| 0 <= i < before.len() && before[i] == l;
                    assert(goal_labels(cb, gi + 1)[i] == l);
                }
                assert(!goal_labels(cb, gi as int).contains(l));
                assert(label_goals(cb, l, gi as int) == Seq::<usize>::empty());
            }
            assert forall|l: u8| #[trigger] group_entries(groups).contains_key(l) implies group_entries(groups)[l] == label_goals(
                cb,
                l,
                gi + 1,
            ) by {
                if l == label {
                    if !before.contains(label) {
                        assert(label_goals(cb, label, gi as int) == Seq::<usize>::empty());
                        assert(Seq::<usize>::empty().push(gi) =~= seq![gi]);
                    }
                }
            }
        }
        gi += 1;
    }
    (groups, labels)
}

/// Whether `l` is among `labels`.
fn contains_label(labels: &Vec<u8>, l: u8) -> (b: bool)
    ensures
        b == labels@.contains(l),
{
    let mut i: usize = 0;
    while i < labels.len()
        invariant
            i <= labels@.len(),
            forall|t: int| 0 <= t < i ==> labels@[t] != l,
        decreases labels@.len() - i,
    {
        if labels[i] == l {
            proof {
                assert(labels@[i as int] == l);
            }
            return true;
        }
        i += 1;
    }
    false
}

/// A pattern: a few goals of one label and the table of least pulls from
/// them.
pub struct Pattern {
    pub goal_indices: Vec<usize>,
    pub label: u8,
    pub table: PdbTable,
}

/// Additive pattern databases: the goals of every label, in chunks of at
/// most `MAX_PATTERN_SIZE`, each with the least pulls from those goals to
/// every placement of their boxes that the search reached.
pub struct PatternDatabase {
    patterns: Vec<Pattern>,
}

/// Chunk `c` of a list of goals: its goals from place `4c` on, at most
/// `MAX_PATTERN_SIZE` of them.
pub open spec fn chunk_of(goals: Seq<usize>, c: int) -> Seq<usize> {
    goals.subrange(
        MAX_PATTERN_SIZE * c,
        if MAX_PATTERN_SIZE * c + MAX_PATTERN_SIZE < goals.len() {
            MAX_PATTERN_SIZE * c + MAX_PATTERN_SIZE
        } else {
            goals.len() as int
        },
    )
}

/// Some pull moves the boxes of the goals `gis` away from their goals.
pub open spec fn pullable(cb: &CompiledBoard, gis: Seq<usize>) -> bool {
    exists|t: Seq<u16>| #[trigger] pull_link(cb, pattern_start(cb, gis), t) && t != pattern_start(cb, gis)
}

/// `m` is the table built for the goals `gis`: more than one entry, the
/// least pulls to each, and every reachable placement when the table stayed
/// within `MAX_PDB_STATES`.
pub open spec fn table_ok(cb: &CompiledBoard, gis: Seq<usize>, m: Map<Seq<u16>, u32>) -> bool {
    &&& m.len() > 1
    &&& table_sound(cb, pattern_start(cb, gis), m)
    &&& m.len() <= MAX_PDB_STATES ==> forall|key: Seq<u16>, n: nat|
        #[trigger] pulls_to(cb, pattern_start(cb, gis), key, n) ==> m.contains_key(key)
}

/// The value of `key` in `m`, if it has one.
pub open spec fn lookup(m: Map<Seq<u16>, u32>, key: Seq<u16>) -> Option<u32> {
    if m.contains_key(key) {
        Some(m[key])
    } else {
        None
    }
}

/// The lesser of two values, either of which may be missing.
pub open spec fn min_opt(a: Option<u32>, b: Option<u32>) -> Option<u32> {
    match a {
        None => b,
        Some(x) => match b {
            None => Some(x),
            Some(y) => Some(if y < x {
                y
            } else {
                x
            }),
        },
    }
}

/// The place after that of the first occurrence of the last item of
/// `current` in `items` (1 when it does not occur), or 0 when `current` is
/// empty: where the enumeration of combinations goes on.
pub open spec fn next_start(items: Seq<u16>, current: Seq<u16>) -> int {
    if current.len() == 0 {
        0
    } else if items.contains(current.last()) {
        first_place(items, current.last(), items.len() as int) + 1
    } else {
        1
    }
}

/// The first place of `x` among the first `k` items, or `k`.
pub open spec fn first_place(items: Seq<u16>, x: u16, k: int) -> int
    decreases k,
{
    if k <= 0 {
        0
    } else if first_place(items, x, k - 1) < k - 1 {
        first_place(items, x, k - 1)
    } else if items[k - 1] == x {
        k - 1
    } else {
        k
    }
}

/// The least table value over the combinations of `k` items that extend
/// `current`, each sorted, in the order in which they are enumerated.
pub open spec fn best_from(m: Map<Seq<u16>, u32>, items: Seq<u16>, k: int, current: Seq<u16>) -> Option<u32>
    decreases k - current.len(), items.len() + 2,
{
    if current.len() >= k {
        lookup(m, current.sort_by(cell_order()))
    } else {
        proof {
            lemma_first_place_range(items, current.last(), items.len() as int);
            assert(items.take(items.len() as int) =~= items);
        }
        best_loop(m, items, k, current, next_start(items, current))
    }
}

/// The least table value over the extensions of `current` by the items
/// from place `i` on.
pub open spec fn best_loop(m: Map<Seq<u16>, u32>, items: Seq<u16>, k: int, current: Seq<u16>, i: int) -> Option<u32>
    decreases k - current.len(), items.len() + 1 - i,
{
    if current.len() >= k || i < 0 || i >= items.len() || items.len() - i < k - current.len() {
        None
    } else {
        min_opt(best_from(m, items, k, current.push(items[i])), best_loop(m, items, k, current, i + 1))
    }
}

/// The table value of a placement of boxes: the value of the boxes
/// themselves when they are as many as the goals, else the least over the
/// combinations of that many boxes.
pub open spec fn match_cost(m: Map<Seq<u16>, u32>, n: int, positions: Seq<u16>) -> Option<u32> {
    if positions.len() < n {
        None
    } else if positions.len() == n {
        lookup(m, positions.sort_by(cell_order()))
    } else {
        best_from(m, positions, n, seq![])
    }
}

/// The cells, in order, of the first `k` boxes with label `l`.
pub open spec fn label_cells(boxes: Seq<(u16, u8)>, l: u8, k: int) -> Seq<u16>
    decreases k,
{
    if k <= 0 {
        seq![]
    } else if boxes[k - 1].1 == l {
        label_cells(boxes, l, k - 1).push(boxes[k - 1].0)
    } else {
        label_cells(boxes, l, k - 1)
    }
}

/// The first place of `x` in `items`, or `None`.
fn first_position(items: &[u16], x: u16) -> (r: Option<usize>)
    ensures
        items@.contains(x) <==> r is Some,
        r matches Some(p) ==> p == first_place(items@, x, items@.len() as int) && p < items@.len(),
{
    let mut i: usize = 0;
    while i < items.len()
        invariant
            i <= items@.len(),
            forall|t: int| 0 <= t < i ==> items@[t] != x,
            first_place(items@, x, i as int) == i,
        decreases items@.len() - i,
    {
        if items[i] == x {
            proof {
                lemma_first_place_stays(items@, x, i + 1, items@.len() as int);
                assert(items@[i as int] == x);
            }
            return Some(i);
        }
        i += 1;
    }
    proof {
        if items@.contains(x) {
            let t = choose|t: int| 0 <= t < items@.len() && items@[t] == x;
        }
    }
    None
}

pub proof fn lemma_first_place_range(items: Seq<u16>, x: u16, k: int)
    ensures
        0 <= first_place(items, x, k),
        k >= 0 ==> first_place(items, x, k) <= k,
        0 <= k <= items.len() && items.take(k).contains(x) ==> first_place(items, x, k) < k,
    decreases k,
{
    if k > 0 {
        lemma_first_place_range(items, x, k - 1);
        if k <= items.len() && items.take(k).contains(x) {
            let i = choose|i: int| 0 <= i < k && items.take(k)[i] == x;
            if i < k - 1 {
                assert(items.take(k - 1)[i] == x);
            }
        }
    }
}

proof fn lemma_first_place_stays(items: Seq<u16>, x: u16, i: int, k: int)
    requires
        0 < i <= k,
        first_place(items, x, i) < i,
    ensures
        first_place(items, x, k) == first_place(items, x, i),
    decreases k - i,
{
    if k > i {
        lemma_first_place_stays(items, x, i, k - 1);
    }
}

/// The least table value over the combinations of `k` items that extend
/// `current`; `current` comes back unchanged.
fn best_combination(table: &PdbTable, items: &[u16], k: usize, current: &mut Vec<u16>) -> (r: Option<u32>)
    requires
        old(current)@.len() <= k,
    ensures
        r == best_from(table_entries(*table), items@, k as int, old(current)@),
        final(current)@ == old(current)@,
    decreases k - old(current)@.len(),
{
    if current.len() == k {
        let mut key = current.clone();
        proof {
            assert(key@ =~= current@);
        }
        let ghost unsorted = key@;
        sort_cells(&mut key);
        proof {
            lemma_cells_sort_unique(key@, unsorted);
        }
        return table_get(table, &key);
    }
    let ghost cur = current@;
    let remaining = k - current.len();
    let n = items.len();
    let start = if current.len() == 0 {
        0
    } else {
        let last = current[current.len() - 1];
        match first_position(items, last) {
            Some(p) => p + 1,
            None => 1,
        }
    };
    let mut best: Option<u32> = None;
    let mut i: usize = start;
    while i < n
        invariant
            current@ == cur,
            cur == old(current)@,
            cur.len() < k,
            remaining == k - cur.len(),
            n == items@.len(),
            start <= i,
            start as int == next_start(items@, cur),
            min_opt(best, best_loop(table_entries(*table), items@, k as int, cur, i as int)) == best_loop(
                table_entries(*table),
                items@,
                k as int,
                cur,
                start as int,
            ),
        ensures
            best == best_loop(table_entries(*table), items@, k as int, cur, start as int),
        decreases n - i,
    {
        if n - i < remaining {
            break;
        }
        current.push(items[i]);
        let r = best_combination(table, items, k, current);
        current.pop();
        proof {
            assert(current@ =~= cur);
        }
        let ghost rest = best_loop(table_entries(*table), items@, k as int, cur, i + 1);
        proof {
            assert(best_loop(table_entries(*table), items@, k as int, cur, i as int) == min_opt(r, rest));
        }
        best = match best {
            None => r,
            Some(b) => match r {
                None => Some(b),
                Some(c) => Some(if c < b {
                    c
                } else {
                    b
                }),
            },
        };
        i += 1;
    }
    best
}

/// The table value of the pattern for the cells `box_positions` of the
/// boxes of its label: `None` with fewer boxes than goals.
pub fn lookup_best_match(_cb: &CompiledBoard, pattern: &Pattern, box_positions: &[u16]) -> (r: Option<u32>)
    ensures
        r == match_cost(table_entries(pattern.table), pattern.goal_indices@.len() as int, box_positions@),
{
    let n_pattern = pattern.goal_indices.len();
    if box_positions.len() < n_pattern {
        return None;
    }
    if box_positions.len() == n_pattern {
        let mut key: Vec<u16> = Vec::new();
        let mut i: usize = 0;
        while i < box_positions.len()
            invariant
                i <= box_positions@.len(),
                key@ == box_positions@.take(i as int),
            decreases box_positions@.len() - i,
        {
            key.push(box_positions[i]);
            proof {
                assert(box_positions@.take(i + 1) =~= box_positions@.take(i as int).push(box_positions@[i as int]));
            }
            i += 1;
        }
        proof {
            assert(box_positions@.take(i as int) =~= box_positions@);
        }
        let ghost unsorted = key@;
        sort_cells(&mut key);
        proof {
            lemma_cells_sort_unique(key@, unsorted);
        }
        return table_get(&pattern.table, &key);
    }
    let mut current: Vec<u16> = Vec::new();
    proof {
        assert(current@ =~= seq![]);
    }
    best_combination(&pattern.table, box_positions, n_pattern, &mut current)
}

/// Entry `e` of the database was built from a chunk of the goals of its
/// label: at least two goals, and the table of least pulls from them.
pub open spec fn pattern_built(cb: &CompiledBoard, e: (u8, Seq<usize>, Map<Seq<u16>, u32>)) -> bool {
    let goals = label_goals(cb, e.0, cb.goal_cells@.len() as int);
    &&& goal_labels(cb, cb.goal_cells@.len() as int).contains(e.0)
    &&& exists|c: int| 0 <= c && MAX_PATTERN_SIZE * c < goals.len() && e.1 == #[trigger] chunk_of(goals, c)
    &&& e.1.len() >= 2
    &&& table_ok(cb, e.1, e.2)
}

/// The table value of one pattern for the boxes: 0 when the boxes of its
/// label are fewer than its goals or no value is found.
pub open spec fn pattern_value(e: (u8, Seq<usize>, Map<Seq<u16>, u32>), boxes: Seq<(u16, u8)>) -> int {
    let cells = label_cells(boxes, e.0, boxes.len() as int);
    if cells.len() < e.1.len() {
        0
    } else {
        match match_cost(e.2, e.1.len() as int, cells) {
            Some(c) => c as int,
            None => 0,
        }
    }
}

/// The sum of the values of the first `k` patterns.
pub open spec fn pdb_sum(v: Seq<(u8, Seq<usize>, Map<Seq<u16>, u32>)>, boxes: Seq<(u16, u8)>, k: int) -> int
    decreases k,
{
    if k <= 0 {
        0
    } else {
        pdb_sum(v, boxes, k - 1) + pattern_value(v[k - 1], boxes)
    }
}

/// The number of entries of the tables of the first `k` patterns.
pub open spec fn entries_sum(v: Seq<(u8, Seq<usize>, Map<Seq<u16>, u32>)>, k: int) -> int
    decreases k,
{
    if k <= 0 {
        0
    } else {
        entries_sum(v, k - 1) + v[k - 1].2.len()
    }
}

/// `x`, or `u32::MAX` when it is larger.
pub open spec fn capped(x: int) -> int {
    if x > u32::MAX {
        u32::MAX as int
    } else {
        x
    }
}

/// The goals of a label are goals of the board.
pub proof fn lemma_label_goals_range(cb: &CompiledBoard, l: u8, k: int)
    requires
        0 <= k <= cb.goal_cells@.len(),
    ensures
        label_goals(cb, l, k).len() <= k,
        forall|i: int| 0 <= i < label_goals(cb, l, k).len() ==> (#[trigger] label_goals(cb, l, k)[i]) < k,
    decreases k,
{
    if k > 0 {
        lemma_label_goals_range(cb, l, k - 1);
        let prev = label_goals(cb, l, k - 1);
        assert forall|i: int| 0 <= i < label_goals(cb, l, k).len() implies (#[trigger] label_goals(cb, l, k)[i]) < k by {
            if i < prev.len() {
                assert(prev[i] < k - 1);
            }
        }
    }
}

/// The cells of the boxes of label `l`, in order.
pub(crate) fn cells_of_label(box_cells: &[(u16, u8)], l: u8) -> (v: Vec<u16>)
    ensures
        v@ == label_cells(box_cells@, l, box_cells@.len() as int),
{
    let mut v: Vec<u16> = Vec::new();
    let mut i: usize = 0;
    while i < box_cells.len()
        invariant
            i <= box_cells@.len(),
            v@ == label_cells(box_cells@, l, i as int),
        decreases box_cells@.len() - i,
    {
        if box_cells[i].1 == l {
            v.push(box_cells[i].0);
        }
        i += 1;
    }
    v
}

/// The pattern of chunk `c` of the goals of `label`, or `None` when no pull
/// moves its boxes.
fn chunk_pattern(cb: &CompiledBoard, label: u8, chunk: Vec<usize>, Ghost(c): Ghost<int>) -> (r: Option<Pattern>)
    requires
        cb.wf(),
        goal_labels(cb, cb.goal_cells@.len() as int).contains(label),
        0 <= c,
        MAX_PATTERN_SIZE * c < label_goals(cb, label, cb.goal_cells@.len() as int).len(),
        chunk@ == chunk_of(label_goals(cb, label, cb.goal_cells@.len() as int), c),
        chunk@.len() >= 2,
    ensures
        r matches Some(p) ==> {
            &&& p.label == label
            &&& p.goal_indices@ == chunk@
            &&& pattern_built(cb, (p.label, p.goal_indices@, table_entries(p.table)))
        },
        r is None ==> !pullable(cb, chunk@),
{
    let ghost n = cb.goal_cells@.len() as int;
    let ghost gl = label_goals(cb, label, n);
    proof {
        lemma_label_goals_range(cb, label, n);
        assert forall|i: int| 0 <= i < chunk@.len() implies (#[trigger] chunk@[i]) < cb.goal_cells@.len() by {
            assert(chunk@[i] == gl[MAX_PATTERN_SIZE * c + i]);
        }
        assert(chunk@.len() <= MAX_PATTERN_SIZE);
    }
    match build_pattern_table(cb, &chunk) {
        Some(table) => {
            let p = Pattern { goal_indices: chunk, label, table };
            proof {
                assert(chunk_of(gl, c) == p.goal_indices@);
                assert(table_ok(cb, p.goal_indices@, table_entries(p.table)));
                assert(exists|c2: int| 0 <= c2 && MAX_PATTERN_SIZE * c2 < gl.len() && p.goal_indices@ == #[trigger] chunk_of(gl, c2));
                let e = (p.label, p.goal_indices@, table_entries(p.table));
                assert(label_goals(cb, e.0, cb.goal_cells@.len() as int) == gl);
                assert(goal_labels(cb, cb.goal_cells@.len() as int).contains(e.0));
                assert(e.1.len() >= 2);
                assert(table_ok(cb, e.1, e.2));
                assert(pattern_built(cb, e));
            }
            Some(p)
        },
        None => None,
    }
}

impl PatternDatabase {
    /// The patterns: label, goals and table entries of each.
    pub closed spec fn view_patterns(&self) -> Seq<(u8, Seq<usize>, Map<Seq<u16>, u32>)> {
        self.patterns@.map_values(|p: Pattern| (p.label, p.goal_indices@, table_entries(p.table)))
    }

    /// Builds a pattern for every chunk of at most `MAX_PATTERN_SIZE` goals
    /// of each label that has at least two goals and from which some pull
    /// moves a box.
    pub fn build(cb: &CompiledBoard) -> (db: PatternDatabase)
        requires
            cb.wf(),
        ensures
            forall|i: int| 0 <= i < db.view_patterns().len() ==> pattern_built(cb, #[trigger] db.view_patterns()[i]),
            forall|l: u8, c: int|
                goal_labels(cb, cb.goal_cells@.len() as int).contains(l) && 0 <= c && MAX_PATTERN_SIZE * c < label_goals(
                    cb,
                    l,
                    cb.goal_cells@.len() as int,
                ).len() && (#[trigger] chunk_of(label_goals(cb, l, cb.goal_cells@.len() as int), c)).len() >= 2
                    && pullable(cb, chunk_of(label_goals(cb, l, cb.goal_cells@.len() as int), c)) ==> exists|i: int|
                    0 <= i < db.view_patterns().len() && (#[trigger] db.view_patterns()[i]).0 == l
                        && db.view_patterns()[i].1 == chunk_of(label_goals(cb, l, cb.goal_cells@.len() as int), c),
    {
        let ghost n = cb.goal_cells@.len() as int;
        let (groups, labels) = group_goals(cb);
        let mut patterns: Vec<Pattern> = Vec::new();
        let mut li: usize = 0;
        while li < labels.len()
            invariant
                cb.wf(),
                n == cb.goal_cells@.len(),
                labels@ == goal_labels(cb, n),
                forall|l: u8| #[trigger] group_entries(groups).contains_key(l) <==> goal_labels(cb, n).contains(l),
                forall|l: u8|
                    #[trigger] group_entries(groups).contains_key(l) ==> group_entries(groups)[l] == label_goals(cb, l, n),
                li <= labels@.len(),
                forall|i: int|
                    0 <= i < patterns@.len() ==> pattern_built(cb, ((#[trigger] patterns@[i]).label, patterns@[i].goal_indices@, table_entries(patterns@[i].table))),
                forall|j: int, c: int|
                    0 <= j < li && 0 <= c && MAX_PATTERN_SIZE * c < label_goals(cb, labels@[j], n).len() && (#[trigger] chunk_of(
                        label_goals(cb, labels@[j], n),
                        c,
                    )).len() >= 2 && pullable(cb, chunk_of(label_goals(cb, labels@[j], n), c)) ==> exists|i: int|
                        0 <= i < patterns@.len() && (#[trigger] patterns@[i]).label == labels@[j]
                            && patterns@[i].goal_indices@ == chunk_of(label_goals(cb, labels@[j], n), c),
            decreases labels@.len() - li,
        {
            let label = labels[li];
            proof {
                assert(goal_labels(cb, n).contains(label)) by {
                    assert(labels@[li as int] == label);
                }
            }
            let goals = match groups_get(&groups, label) {
                Some(g) => g,
                None => Vec::new(),
            };
            let ghost gl = label_goals(cb, label, n);
            proof {
                assert(goals@ == gl);
                lemma_label_goals_range(cb, label, n);
            }
            let mut pos: usize = 0;
            let ghost mut cc: int = 0;
            while pos < goals.len()
                invariant
                    cb.wf(),
                    n == cb.goal_cells@.len(),
                    labels@ == goal_labels(cb, n),
                    li < labels@.len(),
                    label == labels@[li as int],
                    goal_labels(cb, n).contains(label),
                    goals@ == gl,
                    gl == label_goals(cb, label, n),
                    forall|i: int| 0 <= i < gl.len() ==> (#[trigger] gl[i]) < n,
                    0 <= cc,
                    pos == MAX_PATTERN_SIZE * cc || (pos == goals@.len() && MAX_PATTERN_SIZE * cc >= goals@.len()),
                    pos <= goals@.len(),
                    forall|i: int|
                        0 <= i < patterns@.len() ==> pattern_built(cb, ((#[trigger] patterns@[i]).label, patterns@[i].goal_indices@, table_entries(patterns@[i].table))),
                    forall|j: int, c: int|
                        0 <= j < li && 0 <= c && MAX_PATTERN_SIZE * c < label_goals(cb, labels@[j], n).len() && (#[trigger] chunk_of(
                            label_goals(cb, labels@[j], n),
                            c,
                        )).len() >= 2 && pullable(cb, chunk_of(label_goals(cb, labels@[j], n), c)) ==> exists|i: int|
                            0 <= i < patterns@.len() && (#[trigger] patterns@[i]).label == labels@[j]
                                && patterns@[i].goal_indices@ == chunk_of(label_goals(cb, labels@[j], n), c),
                    forall|c: int|
                        0 <= c < cc && MAX_PATTERN_SIZE * c < gl.len() && (#[trigger] chunk_of(gl, c)).len() >= 2 && pullable(
                            cb,
                            chunk_of(gl, c),
                        ) ==> exists|i: int|
                            0 <= i < patterns@.len() && (#[trigger] patterns@[i]).label == label
                                && patterns@[i].goal_indices@ == chunk_of(gl, c),
                decreases goals@.len() - pos,
            {
                let end = if goals.len() - pos > MAX_PATTERN_SIZE {
                    pos + MAX_PATTERN_SIZE
                } else {
                    goals.len()
                };
                let mut chunk: Vec<usize> = Vec::new();
                let mut t: usize = pos;
                while t < end
                    invariant
                        pos <= t <= end <= goals@.len(),
                        chunk@ == goals@.subrange(pos as int, t as int),
                    decreases end - t,
                {
                    chunk.push(goals[t]);
                    proof {
                        assert(goals@.subrange(pos as int, t + 1) =~= goals@.subrange(pos as int, t as int).push(goals@[t as int]));
                    }
                    t += 1;
                }
                proof {
                    assert(pos == MAX_PATTERN_SIZE * cc);
                    assert(chunk@ == chunk_of(gl, cc));
                }
                if chunk.len() >= 2 {
                    let built = chunk_pattern(cb, label, chunk, Ghost(cc));
                    match built {
                        Some(pattern) => {
                            let ghost before = patterns@;
                            patterns.push(pattern);
                            proof {
                                assert forall|i: int| 0 <= i < patterns@.len() implies pattern_built(cb, ((#[trigger] patterns@[i]).label, patterns@[i].goal_indices@, table_entries(patterns@[i].table))) by {
                                    if i < before.len() {
                                        assert(patterns@[i] == before[i]);
                                    }
                                }
                                assert(patterns@[before.len() as int].label == label);
                                assert forall|j: int, c: int|
                                    0 <= j < li && 0 <= c && MAX_PATTERN_SIZE * c < label_goals(cb, labels@[j], n).len()
                                        && (#[trigger] chunk_of(label_goals(cb, labels@[j], n), c)).len() >= 2 && pullable(
                                        cb,
                                        chunk_of(label_goals(cb, labels@[j], n), c),
                                    ) implies exists|i: int|
                                    0 <= i < patterns@.len() && (#[trigger] patterns@[i]).label == labels@[j]
                                        && patterns@[i].goal_indices@ == chunk_of(label_goals(cb, labels@[j], n), c) by {
                                    let i = choose|i: int|
                                        0 <= i < before.len() && (#[trigger] before[i]).label == labels@[j]
                                            && before[i].goal_indices@ == chunk_of(label_goals(cb, labels@[j], n), c);
                                    assert(patterns@[i] == before[i]);
                                }
                                assert forall|c: int|
                                    0 <= c < cc + 1 && MAX_PATTERN_SIZE * c < gl.len() && (#[trigger] chunk_of(gl, c)).len()
                                        >= 2 && pullable(cb, chunk_of(gl, c)) implies exists|i: int|
                                    0 <= i < patterns@.len() && (#[trigger] patterns@[i]).label == label
                                        && patterns@[i].goal_indices@ == chunk_of(gl, c) by {
                                    if c < cc {
                                        let i = choose|i: int|
                                            0 <= i < before.len() && (#[trigger] before[i]).label == label
                                                && before[i].goal_indices@ == chunk_of(gl, c);
                                        assert(patterns@[i] == before[i]);
                                    } else {
                                        assert(patterns@[before.len() as int].goal_indices@ == chunk_of(gl, c));
                                    }
                                }
                            }
                        },
                        None => {
                            proof {
                                assert(!pullable(cb, chunk_of(gl, cc)));
                            }
                        },
                    }
                }
                pos = end;
                proof {
                    cc = cc + 1;
                }
            }
            proof {
                assert forall|j: int, c: int|
                    0 <= j < li + 1 && 0 <= c && MAX_PATTERN_SIZE * c < label_goals(cb, labels@[j], n).len() && (#[trigger] chunk_of(
                        label_goals(cb, labels@[j], n),
                        c,
                    )).len() >= 2 && pullable(cb, chunk_of(label_goals(cb, labels@[j], n), c)) implies exists|i: int|
                    0 <= i < patterns@.len() && (#[trigger] patterns@[i]).label == labels@[j]
                        && patterns@[i].goal_indices@ == chunk_of(label_goals(cb, labels@[j], n), c) by {
                    if j == li {
                        assert(c < cc);
                    }
                }
            }
            li += 1;
        }
        let db = PatternDatabase { patterns };
        proof {
            assert forall|i: int| 0 <= i < db.view_patterns().len() implies pattern_built(cb, #[trigger] db.view_patterns()[i]) by {
                assert(pattern_built(cb, (patterns@[i].label, patterns@[i].goal_indices@, table_entries(patterns@[i].table))));
            }
            assert forall|l: u8, c: int|
                goal_labels(cb, n).contains(l) && 0 <= c && MAX_PATTERN_SIZE * c < label_goals(cb, l, n).len() && (#[trigger] chunk_of(
                    label_goals(cb, l, n),
                    c,
                )).len() >= 2 && pullable(cb, chunk_of(label_goals(cb, l, n), c)) implies exists|i: int|
                0 <= i < db.view_patterns().len() && (#[trigger] db.view_patterns()[i]).0 == l
                    && db.view_patterns()[i].1 == chunk_of(label_goals(cb, l, n), c) by {
                let j = choose|j: int| 0 <= j < labels@.len() && labels@[j] == l;
                let i = choose|i: int|
                    0 <= i < patterns@.len() && (#[trigger] patterns@[i]).label == labels@[j]
                        && patterns@[i].goal_indices@ == chunk_of(label_goals(cb, labels@[j], n), c);
                assert(db.view_patterns()[i].0 == l);
            }
        }
        db
    }

    /// The sum, capped at `u32::MAX`, over the patterns of the table value
    /// for the boxes of their label: for as many boxes as goals the value of
    /// those boxes, for more the least over every choice of that many.
    pub fn evaluate(&self, cb: &CompiledBoard, box_cells: &[(u16, u8)]) -> (h: u32)
        ensures
            h == capped(pdb_sum(self.view_patterns(), box_cells@, self.view_patterns().len() as int)),
    {
        let ghost v = self.view_patterns();
        let mut total: u32 = 0;
        let mut i: usize = 0;
        while i < self.patterns.len()
            invariant
                v == self.view_patterns(),
                i <= self.patterns@.len(),
                total == capped(pdb_sum(v, box_cells@, i as int)),
                forall|j: int| 0 <= j <= i ==> #[trigger] pdb_sum(v, box_cells@, j) >= 0,
            decreases self.patterns@.len() - i,
        {
            let pattern = &self.patterns[i];
            let relevant = cells_of_label(box_cells, pattern.label);
            proof {
                assert(v[i as int] == (pattern.label, pattern.goal_indices@, table_entries(pattern.table)));
            }
            if relevant.len() < pattern.goal_indices.len() {
                proof {
                    assert(pdb_sum(v, box_cells@, i + 1) == pdb_sum(v, box_cells@, i as int));
                }
                i += 1;
                continue;
            }
            match lookup_best_match(cb, pattern, &relevant) {
                Some(cost) => {
                    total = total.saturating_add(cost);
                },
                None => {},
            }
            proof {
                assert(pdb_sum(v, box_cells@, i + 1) >= 0);
            }
            i += 1;
        }
        total
    }

    /// The number of patterns.
    pub fn pattern_count(&self) -> (n: usize)
        ensures
            n == self.view_patterns().len(),
    {
        self.patterns.len()
    }

    /// The number of entries of all tables together.
    pub fn total_entries(&self) -> (n: usize)
        requires
            entries_sum(self.view_patterns(), self.view_patterns().len() as int) <= usize::MAX,
        ensures
            n == entries_sum(self.view_patterns(), self.view_patterns().len() as int),
    {
        let ghost v = self.view_patterns();
        let mut total: usize = 0;
        let mut i: usize = 0;
        while i < self.patterns.len()
            invariant
                v == self.view_patterns(),
                i <= self.patterns@.len(),
                total == entries_sum(v, i as int),
                entries_sum(v, v.len() as int) <= usize::MAX,
            decreases self.patterns@.len() - i,
        {
            proof {
                lemma_entries_sum_mono(v, i + 1, v.len() as int);
                assert(v[i as int].2 == table_entries(self.patterns@[i as int].table));
            }
            total = total + table_len(&self.patterns[i].table);
            i += 1;
        }
        total
    }
}

proof fn lemma_entries_sum_mono(v: Seq<(u8, Seq<usize>, Map<Seq<u16>, u32>)>, i: int, k: int)
    requires
        0 <= i <= k,
    ensures
        entries_sum(v, i) <= entries_sum(v, k),
    decreases k - i,
{
    if i < k {
        lemma_entries_sum_mono(v, i, k - 1);
    }
}

} // verus!
