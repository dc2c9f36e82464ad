use vstd::prelude::*;

use crate::log::TelemetryCounters;
use crate::text::{decimal, push_char, push_decimal, push_str_chars};

verus! {

/// The named counters of a telemetry record, sorted by name.
pub open spec fn telemetry_entries(t: TelemetryCounters) -> Seq<(Seq<char>, u64)> {
    seq![
        ("deadlock.freeze"@, t.deadlock_freeze_prunes),
        ("deadlock.goal_commitment"@, t.deadlock_goal_commitment_prunes),
        ("deadlock.pattern"@, t.deadlock_pattern_prunes),
        ("deadlock.pi_corral"@, t.deadlock_pi_corral_prunes),
        ("deadlock.static"@, t.deadlock_static_prunes),
        ("deadlock.table"@, t.deadlock_table_prunes),
        ("deadlock.two_by_two"@, t.deadlock_two_by_two_prunes),
        ("duplicate_states"@, t.duplicate_states),
        ("expanded_states"@, t.expanded_states),
        ("generated_states"@, t.generated_states),
        ("heuristic.cache_hits"@, t.heuristic_cache_hits),
        ("heuristic.calls"@, t.heuristic_calls),
        ("macro.forced_push"@, t.macro_forced_push),
        ("macro.goal"@, t.macro_goal),
        ("macro.tunnel"@, t.macro_tunnel),
        ("peak_frontier"@, t.peak_frontier),
        ("peak_memory_bytes"@, t.peak_memory_bytes as u64),
        ("transposition.duplicate"@, t.transposition_duplicate),
        ("transposition.unique"@, t.transposition_unique),
    ]
}

/// `name=value` for every entry whose value is not zero, in order.
pub open spec fn nonzero_items(entries: Seq<(Seq<char>, u64)>) -> Seq<Seq<char>>
    decreases entries.len(),
{
    if entries.len() == 0 {
        Seq::empty()
    } else if entries.last().1 != 0 {
        nonzero_items(entries.drop_last()).push(
            entries.last().0 + seq!['='] + decimal(entries.last().1 as nat),
        )
    } else {
        nonzero_items(entries.drop_last())
    }
}

/// The items joined with `", "`.
pub open spec fn join_comma(items: Seq<Seq<char>>) -> Seq<char>
    decreases items.len(),
{
    if items.len() == 0 {
        Seq::empty()
    } else if items.len() == 1 {
        items[0]
    } else {
        join_comma(items.drop_last()) + seq![',', ' '] + items.last()
    }
}

/// Appends one `name=value` item, preceded by `", "` unless it is the first.
fn push_entry(out: &mut String, first: bool, name: &str, value: u64)
    ensures
        final(out)@ == old(out)@ + (if first {
            Seq::empty()
        } else {
            seq![',', ' ']
        }) + name@ + seq!['='] + decimal(value as nat),
{
    if !first {
        push_char(out, ',');
        push_char(out, ' ');
    }
    push_str_chars(out, name);
    push_char(out, '=');
    push_decimal(out, value);
    assert(out@ =~= old(out)@ + (if first {
        Seq::empty()
    } else {
        seq![',', ' ']
    }) + name@ + seq!['='] + decimal(value as nat));
}

/// Formats telemetry counters as a compact `name=value` list, sorted by
/// name, leaving out the counters that are zero.
pub fn format_telemetry(telemetry: &TelemetryCounters) -> (s: String)
    ensures
        s@ == join_comma(nonzero_items(telemetry_entries(*telemetry))),
{
    let t = *telemetry;
    let names: [&str; 19] = [
        "deadlock.freeze",
        "deadlock.goal_commitment",
        "deadlock.pattern",
        "deadlock.pi_corral",
        "deadlock.static",
        "deadlock.table",
        "deadlock.two_by_two",
        "duplicate_states",
        "expanded_states",
        "generated_states",
        "heuristic.cache_hits",
        "heuristic.calls",
        "macro.forced_push",
        "macro.goal",
        "macro.tunnel",
        "peak_frontier",
        "peak_memory_bytes",
        "transposition.duplicate",
        "transposition.unique",
    ];
    let values: [u64; 19] = [
        t.deadlock_freeze_prunes,
        t.deadlock_goal_commitment_prunes,
        t.deadlock_pattern_prunes,
        t.deadlock_pi_corral_prunes,
        t.deadlock_static_prunes,
        t.deadlock_table_prunes,
        t.deadlock_two_by_two_prunes,
        t.duplicate_states,
        t.expanded_states,
        t.generated_states,
        t.heuristic_cache_hits,
        t.heuristic_calls,
        t.macro_forced_push,
        t.macro_goal,
        t.macro_tunnel,
        t.peak_frontier,
        t.peak_memory_bytes as u64,
        t.transposition_duplicate,
        t.transposition_unique,
    ];
    let ghost entries = telemetry_entries(t);
    assert forall|k: int| 0 <= k < 19 implies (#[trigger] entries[k]) == (names@[k]@, values@[k]) by {}
    let mut out = String::new();
    let mut first = true;
    for i in 0..19usize
        invariant
            entries == telemetry_entries(t),
            entries.len() == 19,
            forall|k: int| 0 <= k < 19 ==> (#[trigger] entries[k]) == (names@[k]@, values@[k]),
            out@ == join_comma(nonzero_items(entries.take(i as int))),
            first == (nonzero_items(entries.take(i as int)).len() == 0),
    {
        let ghost prev = entries.take(i as int);
        assert(entries.take(i + 1).drop_last() =~= prev);
        assert(entries.take(i + 1).last() == entries[i as int]);
        if values[i] != 0 {
            push_entry(&mut out, first, names[i], values[i]);
            first = false;
        }
        let ghost items = nonzero_items(entries.take(i + 1));
        if values[i] != 0 {
            assert(items.drop_last() =~= nonzero_items(prev));
        }
        assert(out@ =~= join_comma(items));
    }
    assert(entries.take(19) =~= entries);
    out
}

} // verus!
