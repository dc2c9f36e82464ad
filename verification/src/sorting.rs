use vstd::prelude::*;
use vstd::relations::{sorted_by, total_ordering};
use vstd::seq_lib::lemma_sorted_unique;

verus! {

broadcast use vstd::std_specs::vec::group_vec_axioms;

/// The cells are in increasing order.
pub open spec fn cells_sorted(s: Seq<u16>) -> bool {
    forall|i: int, j: int| 0 <= i <= j < s.len() ==> #[trigger] s[i] <= #[trigger] s[j]
}

/// Pair `a` comes no later than pair `b` in the order of `(cell, label)`
/// tuples: by cell, then by label.
pub open spec fn pair_le(a: (u16, u8), b: (u16, u8)) -> bool {
    a.0 < b.0 || (a.0 == b.0 && a.1 <= b.1)
}

/// The pairs are in increasing tuple order.
pub open spec fn pairs_sorted(s: Seq<(u16, u8)>) -> bool {
    forall|i: int, j: int| 0 <= i <= j < s.len() ==> pair_le(#[trigger] s[i], #[trigger] s[j])
}

/// Exchanging two entries keeps the multiset of entries.
pub proof fn lemma_swap_keeps_multiset<T>(s: Seq<T>, i: int, j: int)
    requires
        0 <= i < s.len(),
        0 <= j < s.len(),
    ensures
        s.update(i, s[j]).update(j, s[i]).to_multiset() == s.to_multiset(),
{
    broadcast use vstd::multiset::group_multiset_axioms;

    let s1 = s.update(i, s[j]);
    assert(s1[j] == s[j]);
    vstd::seq_lib::to_multiset_update(s, i, s[j]);
    vstd::seq_lib::to_multiset_update(s1, j, s[i]);
    vstd::seq_lib::to_multiset_contains(s, s[i]);
    let m = s.to_multiset();
    assert(m.insert(s[j]).remove(s[i]).insert(s[i]).remove(s[j]) =~= m);
}

/// Sorts the cells into increasing order (insertion sort).
pub fn sort_cells(v: &mut Vec<u16>)
    ensures
        cells_sorted(final(v)@),
        final(v)@.to_multiset() == old(v)@.to_multiset(),
        final(v)@.len() == old(v)@.len(),
{
    let ghost orig = v@;
    let mut i: usize = 1;
    if v.len() == 0 {
        return;
    }
    while i < v.len()
        invariant
            1 <= i <= v@.len(),
            v@.to_multiset() == orig.to_multiset(),
            v@.len() == orig.len(),
            cells_sorted(v@.take(i as int)),
        decreases v@.len() - i,
    {
        let mut j: usize = i;
        proof {
            assert forall|a: int, b: int| 0 <= a <= b <= i && a != j && b != j implies #[trigger] v@[a] <= #[trigger] v@[b] by {
                assert(v@.take(i as int)[a] == v@[a]);
                assert(v@.take(i as int)[b] == v@[b]);
            }
        }
        while j > 0 && v[j - 1] > v[j]
            invariant
                0 <= j <= i < v@.len(),
                v@.to_multiset() == orig.to_multiset(),
                v@.len() == orig.len(),
                forall|a: int, b: int| 0 <= a <= b <= i && a != j && b != j ==> #[trigger] v@[a] <= #[trigger] v@[b],
                forall|b: int| j < b <= i ==> v@[j as int] <= #[trigger] v@[b],
            decreases j,
        {
            let ghost before = v@;
            let x = v[j - 1];
            let y = v[j];
            v.set(j - 1, y);
            v.set(j, x);
            proof {
                assert(v@ =~= before.update(j - 1, y).update(j as int, x));
                lemma_swap_keeps_multiset(before, j - 1, j as int);
                assert(before.update(j - 1, before[j as int]).update(j as int, before[j - 1]) =~= v@);
            }
            j -= 1;
        }
        proof {
            assert forall|a: int, b: int| 0 <= a <= b < i + 1 implies #[trigger] v@.take(i + 1)[a] <= #[trigger] v@.take(i + 1)[b] by {
                if a == j && j > 0 {
                    assert(v@[j - 1] <= v@[j as int]);
                }
            }
        }
        i += 1;
    }
    proof {
        assert(v@.take(v@.len() as int) =~= v@);
    }
}

/// Sorts the pairs into increasing tuple order (insertion sort).
pub fn sort_pairs(v: &mut Vec<(u16, u8)>)
    ensures
        pairs_sorted(final(v)@),
        final(v)@.to_multiset() == old(v)@.to_multiset(),
        final(v)@.len() == old(v)@.len(),
{
    let ghost orig = v@;
    let mut i: usize = 1;
    if v.len() == 0 {
        return;
    }
    while i < v.len()
        invariant
            1 <= i <= v@.len(),
            v@.to_multiset() == orig.to_multiset(),
            v@.len() == orig.len(),
            pairs_sorted(v@.take(i as int)),
        decreases v@.len() - i,
    {
        let mut j: usize = i;
        proof {
            assert forall|a: int, b: int| 0 <= a <= b <= i && a != j && b != j implies pair_le(#[trigger] v@[a], #[trigger] v@[b]) by {
                assert(v@.take(i as int)[a] == v@[a]);
                assert(v@.take(i as int)[b] == v@[b]);
            }
        }
        while j > 0 && (v[j - 1].0 > v[j].0 || (v[j - 1].0 == v[j].0 && v[j - 1].1 > v[j].1))
            invariant
                0 <= j <= i < v@.len(),
                v@.to_multiset() == orig.to_multiset(),
                v@.len() == orig.len(),
                forall|a: int, b: int| 0 <= a <= b <= i && a != j && b != j ==> pair_le(#[trigger] v@[a], #[trigger] v@[b]),
                forall|b: int| j < b <= i ==> pair_le(v@[j as int], #[trigger] v@[b]),
            decreases j,
        {
            let ghost before = v@;
            let x = v[j - 1];
            let y = v[j];
            v.set(j - 1, y);
            v.set(j, x);
            proof {
                lemma_swap_keeps_multiset(before, j - 1, j as int);
                assert(before.update(j - 1, before[j as int]).update(j as int, before[j - 1]) =~= v@);
            }
            j -= 1;
        }
        proof {
            assert forall|a: int, b: int| 0 <= a <= b < i + 1 implies pair_le(#[trigger] v@.take(i + 1)[a], #[trigger] v@.take(i + 1)[b]) by {
                if a == j && j > 0 {
                    assert(pair_le(v@[j - 1], v@[j as int]));
                }
            }
        }
        i += 1;
    }
    proof {
        assert(v@.take(v@.len() as int) =~= v@);
    }
}

/// The order of box pairs, as a relation.
pub open spec fn pair_order() -> spec_fn((u16, u8), (u16, u8)) -> bool {
    |a: (u16, u8), b: (u16, u8)| pair_le(a, b)
}

/// The order of box pairs is total.
pub proof fn lemma_pair_order_total()
    ensures
        total_ordering(pair_order()),
{
    assert forall|a: (u16, u8), b: (u16, u8)| #[trigger] (pair_order())(a, b) && #[trigger] (pair_order())(b, a) implies a == b by {}
}

/// A sorted list of pairs with the entries of `s` is `s` sorted.
pub proof fn lemma_pairs_sort_unique(t: Seq<(u16, u8)>, s: Seq<(u16, u8)>)
    requires
        pairs_sorted(t),
        t.to_multiset() == s.to_multiset(),
    ensures
        t == s.sort_by(pair_order()),
{
    lemma_pair_order_total();
    s.lemma_sort_by_ensures(pair_order());
    assert(sorted_by(t, pair_order())) by {
        assert forall|i: int, j: int| 0 <= i < j < t.len() implies #[trigger] (pair_order())(t[i], t[j]) by {
            assert(pair_le(t[i], t[j]));
        }
    }
    lemma_sorted_unique(t, s.sort_by(pair_order()), pair_order());
}

/// The order of cells, as a relation.
pub open spec fn cell_order() -> spec_fn(u16, u16) -> bool {
    |a: u16, b: u16| a <= b
}

/// A sorted list of cells with the entries of `s` is `s` sorted.
pub proof fn lemma_cells_sort_unique(t: Seq<u16>, s: Seq<u16>)
    requires
        cells_sorted(t),
        t.to_multiset() == s.to_multiset(),
    ensures
        t == s.sort_by(cell_order()),
{
    assert(total_ordering(cell_order())) by {
        assert forall|a: u16, b: u16| #[trigger] (cell_order())(a, b) && #[trigger] (cell_order())(b, a) implies a == b by {}
    }
    s.lemma_sort_by_ensures(cell_order());
    assert(sorted_by(t, cell_order())) by {
        assert forall|i: int, j: int| 0 <= i < j < t.len() implies #[trigger] (cell_order())(t[i], t[j]) by {
            assert(t[i] <= t[j]);
        }
    }
    lemma_sorted_unique(t, s.sort_by(cell_order()), cell_order());
}

} // verus!
