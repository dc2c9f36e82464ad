use vstd::prelude::*;

use rustc_hash::FxHashMap;

verus! {

/// The best cost known for a state.
#[derive(Clone, Copy, Debug)]
pub struct TranspositionEntry {
    pub pushes: u32,
    pub moves: u32,
}

/// `(pushes, moves)` is strictly better than the entry: fewer pushes, or as
/// many pushes and fewer moves.
pub open spec fn improves(pushes: u32, moves: u32, e: TranspositionEntry) -> bool {
    pushes < e.pushes || (pushes == e.pushes && moves < e.moves)
}

/// The entry is at least as good as `(pushes, moves)`.
pub open spec fn covers(e: TranspositionEntry, pushes: u32, moves: u32) -> bool {
    e.pushes < pushes || (e.pushes == pushes && e.moves <= moves)
}

/// The empty map of entries.
pub open spec fn no_entries() -> Map<u64, TranspositionEntry> {
    Map::empty()
}

/// The map behind the table: state hash to best known cost.
type EntryMap = FxHashMap<u64, TranspositionEntry>;

/// An empty map (`HashMap::with_capacity_and_hasher` of std with the hasher
/// of rustc-hash). Claimed: the map is empty; the capacity is not modelled.
#[verifier::external_body]
fn fx_map_with_capacity(capacity: usize) -> (map: EntryMap)
    ensures
        map@ == no_entries(),
{
    FxHashMap::with_capacity_and_hasher(capacity, Default::default())
}

/// The entry of `key` (`HashMap::get`). Claimed: `Some` of the entry exactly
/// when the map has the key; the Fx hasher is deterministic and `u64` keys
/// compare by value.
#[verifier::external_body]
fn fx_map_get(m: &EntryMap, key: u64) -> (r: Option<&TranspositionEntry>)
    ensures
        match r {
            Some(e) => m@.contains_key(key) && *e == m@[key],
            None => !m@.contains_key(key),
        },
{
    m.get(&key)
}

/// Stores `value` under `key` (`HashMap::insert`). Claimed: afterwards the
/// map is the former map with `key` bound to `value`.
#[verifier::external_body]
fn fx_map_insert(m: &mut EntryMap, key: u64, value: TranspositionEntry)
    ensures
        final(m)@ == old(m)@.insert(key, value),
{
    m.insert(key, value);
}

/// Whether `key` is bound (`HashMap::contains_key`). Claimed: exactly when
/// the map has the key.
#[verifier::external_body]
fn fx_map_contains_key(m: &EntryMap, key: u64) -> (b: bool)
    ensures
        b == m@.contains_key(key),
{
    m.contains_key(&key)
}

/// The number of keys (`HashMap::len`). Claimed: the size of the map's key
/// set.
#[verifier::external_body]
fn fx_map_len(m: &EntryMap) -> (n: usize)
    ensures
        n == m@.len(),
{
    m.len()
}

/// Hash-based transposition table for visited states, keyed by a state hash;
/// stores the best cost known for each state.
pub struct TranspositionTable {
    map: EntryMap,
}

impl TranspositionTable {
    /// The entries of the table.
    pub closed spec fn entries(&self) -> Map<u64, TranspositionEntry> {
        self.map@
    }

    /// An empty table.
    pub fn new() -> (t: TranspositionTable)
        ensures
            t.entries() == no_entries(),
    {
        TranspositionTable { map: FxHashMap::default() }
    }

    /// An empty table with room for `capacity` states.
    pub fn with_capacity(capacity: usize) -> (t: TranspositionTable)
        ensures
            t.entries() == no_entries(),
    {
        TranspositionTable { map: fx_map_with_capacity(capacity) }
    }

    /// Records `(pushes, moves)` for `hash` when the state is new or the cost
    /// improves on the stored one (fewer pushes, or as many pushes and fewer
    /// moves); returns whether it did.
    pub fn insert(&mut self, hash: u64, pushes: u32, moves: u32) -> (stored: bool)
        ensures
            stored == (!old(self).entries().contains_key(hash) || improves(pushes, moves, old(self).entries()[hash])),
            stored ==> final(self).entries() == old(self).entries().insert(hash, TranspositionEntry { pushes, moves }),
            !stored ==> final(self).entries() == old(self).entries(),
    {
        match fx_map_get(&self.map, hash) {
            Some(existing) => {
                if pushes < existing.pushes || (pushes == existing.pushes && moves < existing.moves) {
                    fx_map_insert(&mut self.map, hash, TranspositionEntry { pushes, moves });
                    true
                } else {
                    false
                }
            },
            None => {
                fx_map_insert(&mut self.map, hash, TranspositionEntry { pushes, moves });
                true
            },
        }
    }

    /// Whether the table already holds `hash` at a cost as good as
    /// `(pushes, moves)`, so the proposed state can be skipped. Does not
    /// insert.
    pub fn dominates(&self, hash: u64, pushes: u32, moves: u32) -> (b: bool)
        ensures
            b == (self.entries().contains_key(hash) && covers(self.entries()[hash], pushes, moves)),
    {
        match fx_map_get(&self.map, hash) {
            Some(existing) => existing.pushes < pushes || (existing.pushes == pushes && existing.moves <= moves),
            None => false,
        }
    }

    /// The entry of `hash`, if any.
    pub fn get(&self, hash: u64) -> (r: Option<&TranspositionEntry>)
        ensures
            match r {
                Some(e) => self.entries().contains_key(hash) && *e == self.entries()[hash],
                None => !self.entries().contains_key(hash),
            },
    {
        fx_map_get(&self.map, hash)
    }

    /// Whether the table holds `hash`.
    pub fn contains(&self, hash: u64) -> (b: bool)
        ensures
            b == self.entries().contains_key(hash),
    {
        fx_map_contains_key(&self.map, hash)
    }

    /// The number of states in the table.
    pub fn len(&self) -> (n: usize)
        ensures
            n == self.entries().len(),
    {
        fx_map_len(&self.map)
    }

    /// Whether the table holds no state.
    pub fn is_empty(&self) -> (b: bool)
        ensures
            b == (self.entries().len() == 0),
    {
        fx_map_len(&self.map) == 0
    }

    /// A rough estimate of the memory the table uses: per state, the key, the
    /// entry and eight bytes of overhead.
    pub fn estimated_memory_bytes(&self) -> (bytes: usize)
        requires
            16 + vstd::layout::size_of::<TranspositionEntry>() <= usize::MAX,
            self.entries().len() * (16 + vstd::layout::size_of::<TranspositionEntry>()) <= usize::MAX,
        ensures
            bytes == self.entries().len() * (16 + vstd::layout::size_of::<TranspositionEntry>()),
    {
        let n = fx_map_len(&self.map);
        let per_state = std::mem::size_of::<u64>() + std::mem::size_of::<TranspositionEntry>() + 8;
        proof {
            broadcast use vstd::layout::layout_of_primitives;

            assert(n * per_state <= usize::MAX);
        }
        n * per_state
    }
}

impl Default for TranspositionTable {
    fn default() -> (t: TranspositionTable)
        ensures
            t.entries() == no_entries(),
    {
        TranspositionTable::new()
    }
}

/// What the table answers for a state is what was last stored for it: after
/// storing `(pushes, moves)` for `hash`, the table's entry for `hash` is that
/// cost and every other entry is unchanged.
pub proof fn lemma_read_after_store(before: Map<u64, TranspositionEntry>, hash: u64, pushes: u32, moves: u32, other: u64)
    ensures
        before.insert(hash, TranspositionEntry { pushes, moves })[hash] == (TranspositionEntry { pushes, moves }),
        other != hash ==> before.insert(hash, TranspositionEntry { pushes, moves }).contains_key(other) == before.contains_key(other),
        other != hash && before.contains_key(other) ==> before.insert(hash, TranspositionEntry { pushes, moves })[other] == before[other],
{
}

/// The cost stored for a state never gets worse: after an insert, the entry
/// of `hash` covers both what it held before and the cost offered.
pub proof fn lemma_insert_keeps_best(t0: &TranspositionTable, t1: &TranspositionTable, hash: u64, pushes: u32, moves: u32, stored: bool)
    requires
        stored == (!t0.entries().contains_key(hash) || improves(pushes, moves, t0.entries()[hash])),
        stored ==> t1.entries() == t0.entries().insert(hash, TranspositionEntry { pushes, moves }),
        !stored ==> t1.entries() == t0.entries(),
    ensures
        t1.entries().contains_key(hash),
        covers(t1.entries()[hash], pushes, moves),
        t0.entries().contains_key(hash) ==> covers(t1.entries()[hash], t0.entries()[hash].pushes, t0.entries()[hash].moves),
{
}

} // verus!
