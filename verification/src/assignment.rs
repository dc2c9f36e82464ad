use vstd::prelude::*;

verus! {

broadcast use vstd::std_specs::vec::group_vec_axioms;

// ----------------------------------------------------------------------
// What an assignment is and what it costs.
// ----------------------------------------------------------------------

/// `a` assigns every row to its own column: one column per row, all below
/// `n_cols`, no column twice.
pub open spec fn is_assignment(a: Seq<usize>, n_rows: int, n_cols: int) -> bool {
    &&& a.len() == n_rows
    &&& forall|i: int| 0 <= i < a.len() ==> (#[trigger] a[i]) < n_cols
    &&& forall|i: int, k: int| 0 <= i < a.len() && 0 <= k < a.len() && i != k ==> (#[trigger] a[i]) != (#[trigger] a[k])
}

/// The total cost of assigning row `i` to column `a[i]` for every row.
pub open spec fn assignment_cost(cost: Seq<Vec<u32>>, a: Seq<usize>) -> int
    decreases a.len(),
{
    if a.len() == 0 {
        0
    } else {
        assignment_cost(cost, a.drop_last()) + cost[a.len() - 1]@[a.last() as int] as int
    }
}

/// The number of columns of a cost matrix (that of its first row).
pub open spec fn column_count(cost: Seq<Vec<u32>>) -> int {
    if cost.len() == 0 {
        0
    } else {
        cost[0]@.len() as int
    }
}

/// A matrix the algorithm accepts: at least as many columns as rows, every row
/// as long as the first.
pub open spec fn well_shaped(cost: Seq<Vec<u32>>) -> bool {
    &&& cost.len() > 0 ==> cost.len() <= cost[0]@.len()
    &&& forall|r: int| 0 <= r < cost.len() ==> (#[trigger] cost[r])@.len() >= column_count(cost)
}

// ----------------------------------------------------------------------
// Sums used by the optimality argument. Rows and columns are 1-based there:
// row r is cost[r - 1], column j is entry j - 1.
// ----------------------------------------------------------------------

spec fn c(cost: Seq<Vec<u32>>, r: int, j: int) -> int {
    cost[r - 1]@[j - 1] as int
}

/// u[1] + ... + u[k].
spec fn sum_u(u: Seq<i64>, k: int) -> int
    decreases k,
{
    if k <= 0 {
        0
    } else {
        sum_u(u, k - 1) + u[k] as int
    }
}

/// v[1] + ... + v[k].
spec fn sum_v(v: Seq<i64>, k: int) -> int
    decreases k,
{
    if k <= 0 {
        0
    } else {
        sum_v(v, k - 1) + v[k] as int
    }
}

/// v at the (1-based) column of every row of `a`, summed.
spec fn sum_over(a: Seq<usize>, v: Seq<i64>) -> int
    decreases a.len(),
{
    if a.len() == 0 {
        0
    } else {
        sum_over(a.drop_last(), v) + v[a.last() + 1] as int
    }
}

proof fn lemma_sum_over_remove(a: Seq<usize>, v: Seq<i64>, t: int)
    requires
        0 <= t < a.len(),
    ensures
        sum_over(a, v) == sum_over(a.remove(t), v) + v[a[t] + 1] as int,
    decreases a.len(),
{
    if t < a.len() - 1 {
        lemma_sum_over_remove(a.drop_last(), v, t);
        assert(a.remove(t).drop_last() =~= a.drop_last().remove(t));
        assert(a.remove(t).last() == a.last());
    } else {
        assert(a.remove(t) =~= a.drop_last());
    }
}

/// Over the columns of an injective `a` below `k`, v sums to at least
/// v[1] + ... + v[k] when v is never positive, and to exactly that when v is
/// zero on every column `a` misses.
proof fn lemma_image_sum(a: Seq<usize>, v: Seq<i64>, k: int)
    requires
        k >= 0,
        forall|i: int| 0 <= i < a.len() ==> (#[trigger] a[i]) < k,
        forall|i: int, t: int| 0 <= i < a.len() && 0 <= t < a.len() && i != t ==> (#[trigger] a[i]) != (#[trigger] a[t]),
        forall|j: int| 1 <= j <= k ==> (#[trigger] v[j]) <= 0,
    ensures
        sum_over(a, v) >= sum_v(v, k),
        (forall|j: int|
            1 <= j <= k && (forall|i: int| 0 <= i < a.len() ==> (#[trigger] a[i]) + 1 != j) ==> (#[trigger] v[j]) == 0)
            ==> sum_over(a, v) == sum_v(v, k),
    decreases k,
{
    if k == 0 {
        if a.len() > 0 {
            assert(a[0] < 0);
        }
    } else {
        if exists|t: int| 0 <= t < a.len() && a[t] == k - 1 {
            let t = choose|t: int| 0 <= t < a.len() && a[t] == k - 1;
            let b = a.remove(t);
            lemma_sum_over_remove(a, v, t);
            assert forall|i: int| 0 <= i < b.len() implies (#[trigger] b[i]) < k - 1 by {
                if i < t {
                    assert(b[i] == a[i]);
                } else {
                    assert(b[i] == a[i + 1]);
                }
            }
            assert forall|i: int, s: int| 0 <= i < b.len() && 0 <= s < b.len() && i != s implies (#[trigger] b[i])
                != (#[trigger] b[s]) by {
                let ii = if i < t { i } else { i + 1 };
                let ss = if s < t { s } else { s + 1 };
                assert(b[i] == a[ii] && b[s] == a[ss]);
            }
            lemma_image_sum(b, v, k - 1);
            if forall|j: int|
                1 <= j <= k && (forall|i: int| 0 <= i < a.len() ==> (#[trigger] a[i]) + 1 != j) ==> (#[trigger] v[j])
                    == 0 {
                assert forall|j: int|
                    1 <= j <= k - 1 && (forall|i: int| 0 <= i < b.len() ==> (#[trigger] b[i]) + 1 != j) implies (
                #[trigger] v[j]) == 0 by {
                    assert forall|i: int| 0 <= i < a.len() implies (#[trigger] a[i]) + 1 != j by {
                        if i < t {
                            assert(a[i] == b[i]);
                        } else if i > t {
                            assert(a[i] == b[i - 1]);
                        }
                    }
                }
            }
        } else {
            assert forall|i: int| 0 <= i < a.len() implies (#[trigger] a[i]) < k - 1 by {
                assert(a[i] != k - 1);
            }
            lemma_image_sum(a, v, k - 1);
        }
    }
}

/// Under dual feasibility, every assignment costs at least the sum of the row
/// potentials plus the column potentials it uses; with equality on tight edges.
proof fn lemma_cost_ge_duals(cost: Seq<Vec<u32>>, a: Seq<usize>, u: Seq<i64>, v: Seq<i64>, n: int)
    requires
        a.len() <= cost.len(),
        forall|i: int| 0 <= i < a.len() ==> (#[trigger] a[i]) < n,
        forall|r: int, j: int|
            1 <= r <= cost.len() && 1 <= j <= n ==> (#[trigger] u[r]) + (#[trigger] v[j]) <= c(cost, r, j),
    ensures
        assignment_cost(cost, a) >= sum_u(u, a.len() as int) + sum_over(a, v),
        (forall|i: int| 0 <= i < a.len() ==> u[i + 1] + v[(#[trigger] a[i]) + 1] == c(cost, i + 1, a[i] + 1))
            ==> assignment_cost(cost, a) == sum_u(u, a.len() as int) + sum_over(a, v),
    decreases a.len(),
{
    if a.len() > 0 {
        let b = a.drop_last();
        lemma_cost_ge_duals(cost, b, u, v, n);
        let r = a.len() as int;
        let j = a.last() + 1;
        assert(u[r] + v[j] <= c(cost, r, j));
        if forall|i: int| 0 <= i < a.len() ==> u[i + 1] + v[(#[trigger] a[i]) + 1] == c(cost, i + 1, a[i] + 1) {
            assert forall|i: int| 0 <= i < b.len() implies u[i + 1] + v[(#[trigger] b[i]) + 1] == c(
                cost,
                i + 1,
                b[i] + 1,
            ) by {
                assert(b[i] == a[i]);
            }
            assert(u[r] + v[j] == c(cost, r, a[r - 1] + 1));
        }
    }
}

/// Some matched-row bound leaves a column of `1..=n` unmatched.
proof fn lemma_free_column(p: Seq<usize>, n: int, top: int)
    requires
        p.len() == n + 1,
        0 <= top < n,
        forall|a: int| 1 <= a <= n ==> (#[trigger] p[a]) <= top,
        forall|a: int, b: int|
            1 <= a <= n && 1 <= b <= n && a != b && (#[trigger] p[a]) != 0 ==> p[a] != (#[trigger] p[b]),
    ensures
        exists|j: int| 1 <= j <= n && p[j] == 0,
{
    broadcast use vstd::set::group_set_axioms;

    if forall|j: int| 1 <= j <= n ==> p[j] != 0 {
        let m = Set::new(|j: int| 1 <= j <= n);
        let f = |j: int| p[j] as int;
        vstd::set_lib::lemma_int_range(1, n + 1);
        assert(m =~= vstd::set_lib::set_int_range(1, n + 1));
        let img = m.map(f);
        vstd::set_lib::lemma_int_range(1, top + 1);
        assert(img.subset_of(vstd::set_lib::set_int_range(1, top + 1)));
        vstd::set_lib::lemma_len_subset(img, vstd::set_lib::set_int_range(1, top + 1));
        assert(vstd::relations::injective_on(f, m));
        vstd::set_lib::lemma_map_size(m, img, f);
        assert(false);
    }
}

/// How many entries of `s` are set.
spec fn count_true(s: Seq<bool>) -> nat
    decreases s.len(),
{
    if s.len() == 0 {
        0
    } else {
        count_true(s.drop_last()) + if s.last() {
            1nat
        } else {
            0nat
        }
    }
}

proof fn lemma_count_true_set(s: Seq<bool>, k: int)
    requires
        0 <= k < s.len(),
        !s[k],
    ensures
        count_true(s.update(k, true)) == count_true(s) + 1,
        count_true(s) < s.len(),
    decreases s.len(),
{
    if k < s.len() - 1 {
        lemma_count_true_set(s.drop_last(), k);
        assert(s.update(k, true).drop_last() =~= s.drop_last().update(k, true));
    } else {
        assert(s.update(k, true).drop_last() =~= s.drop_last());
        lemma_count_true_le(s.drop_last());
    }
}

proof fn lemma_count_false(s: Seq<bool>)
    requires
        forall|k: int| 0 <= k < s.len() ==> !s[k],
    ensures
        count_true(s) == 0,
    decreases s.len(),
{
    if s.len() > 0 {
        lemma_count_false(s.drop_last());
    }
}

proof fn lemma_count_true_le(s: Seq<bool>)
    ensures
        count_true(s) <= s.len(),
    decreases s.len(),
{
    if s.len() > 0 {
        lemma_count_true_le(s.drop_last());
    }
}

// ----------------------------------------------------------------------
// The state of the algorithm. Row 0 and column 0 are sentinels: column 0
// holds the row being inserted, and `p[j]` is the row matched to column j
// (0 when column j is free).
// ----------------------------------------------------------------------

/// Every potential stays within this bound (the largest cost plus one).
spec fn big() -> int {
    0x1_0000_0000
}

/// Dual feasibility: u[r] + v[j] never exceeds the cost of (r, j).
spec fn feasible(cost: Seq<Vec<u32>>, u: Seq<i64>, v: Seq<i64>, n_rows: int, n: int) -> bool {
    forall|r: int, j: int|
        1 <= r <= n_rows && 1 <= j <= n ==> (#[trigger] u[r]) + (#[trigger] v[j]) <= c(cost, r, j)
}

/// The edge (p[j], j) of every matched column is tight.
spec fn tight(cost: Seq<Vec<u32>>, u: Seq<i64>, v: Seq<i64>, p: Seq<usize>, n: int) -> bool {
    forall|j: int| 1 <= j <= n && (#[trigger] p[j]) != 0 ==> u[p[j] as int] + v[j] == c(cost, p[j] as int, j)
}

/// Over the columns `lo..=n` other than `skip`, the rows 1..=top each appear
/// exactly once and no other row appears.
spec fn rows_once(p: Seq<usize>, lo: int, n: int, skip: int, top: int) -> bool {
    &&& forall|a: int| lo <= a <= n && a != skip ==> (#[trigger] p[a]) <= top
    &&& forall|a: int, b: int|
        lo <= a <= n && lo <= b <= n && a != skip && b != skip && a != b && (#[trigger] p[a]) != 0
            ==> p[a] != (#[trigger] p[b])
    &&& forall|r: int| 1 <= r <= top ==> #[trigger] row_present(p, lo, n, skip, r)
}

/// Row `r` is the row of some column of `lo..=n` other than `skip`.
spec fn row_present(p: Seq<usize>, lo: int, n: int, skip: int, r: int) -> bool {
    exists|a: int| lo <= a <= n && a != skip && (#[trigger] p[a]) == r
}

/// Bounds that keep every update inside `i64`.
spec fn bounded(u: Seq<i64>, v: Seq<i64>, n_rows: int, n: int) -> bool {
    &&& forall|r: int| 0 <= r <= n_rows ==> 0 <= #[trigger] u[r] <= big()
    &&& forall|j: int| 1 <= j <= n ==> -big() <= #[trigger] v[j] <= 0
}

/// The reduced cost of the edge from the row of column `k` to column `j`.
spec fn red(cost: Seq<Vec<u32>>, u: Seq<i64>, v: Seq<i64>, p: Seq<usize>, k: int, j: int) -> int {
    c(cost, p[k] as int, j) - u[p[k] as int] - v[j]
}

/// For each column outside the tree, `minv` is at most the reduced cost from
/// every tree column other than `skip`, and is either still unset or the
/// reduced cost from the tree column `way[j]`.
spec fn minv_ok(
    cost: Seq<Vec<u32>>,
    u: Seq<i64>,
    v: Seq<i64>,
    p: Seq<usize>,
    way: Seq<usize>,
    minv: Seq<i64>,
    used: Seq<bool>,
    n: int,
    skip: int,
) -> bool {
    forall|j: int|
        #![trigger minv[j]]
        1 <= j <= n && !used[j] ==> {
            &&& forall|k: int|
                0 <= k <= n && used[k] && k != skip ==> (#[trigger] minv[j]) <= #[trigger] red(cost, u, v, p, k, j)
            &&& minv[j] == i64::MAX || (way[j] <= n && used[way[j] as int] && minv[j] == red(
                cost,
                u,
                v,
                p,
                way[j] as int,
                j,
            ))
        }
}

/// Shape facts shared by every step.
spec fn shape(cost: Seq<Vec<u32>>, n_rows: int, n: int) -> bool {
    &&& well_shaped(cost)
    &&& n_rows == cost.len()
    &&& n == column_count(cost)
    &&& 1 <= n_rows <= n
    &&& n < usize::MAX
}

/// The rows of the tree columns are real rows.
spec fn tree_rows(p: Seq<usize>, used: Seq<bool>, n_rows: int, n: int) -> bool {
    forall|k: int| 0 <= k <= n && (#[trigger] used[k]) ==> 1 <= p[k] <= n_rows
}

/// Scans the columns outside the tree against the row of column `j0`, newly
/// added to the tree: lowers `minv` where that row reaches a column more
/// cheaply, and returns the least `minv` outside the tree with its column.
fn scan_columns(
    cost: &[Vec<u32>],
    u: &Vec<i64>,
    v: &Vec<i64>,
    p: &Vec<usize>,
    used: &Vec<bool>,
    minv: &mut Vec<i64>,
    way: &mut Vec<usize>,
    j0: usize,
    n_rows: usize,
    n: usize,
) -> (res: (i64, usize))
    requires
        shape(cost@, n_rows as int, n as int),
        u@.len() == n_rows + 1,
        v@.len() == n + 1,
        p@.len() == n + 1,
        used@.len() == n + 1,
        old(minv)@.len() == n + 1,
        old(way)@.len() == n + 1,
        j0 <= n,
        used@[j0 as int],
        tree_rows(p@, used@, n_rows as int, n as int),
        bounded(u@, v@, n_rows as int, n as int),
        feasible(cost@, u@, v@, n_rows as int, n as int),
        exists|f: int| 1 <= f <= n && !(#[trigger] used@[f]),
        minv_ok(cost@, u@, v@, p@, old(way)@, old(minv)@, used@, n as int, j0 as int),
    ensures
        final(minv)@.len() == n + 1,
        final(way)@.len() == n + 1,
        minv_ok(cost@, u@, v@, p@, final(way)@, final(minv)@, used@, n as int, -1),
        forall|j: int|
            0 <= j <= n && used@[j] ==> final(way)@[j] == old(way)@[j] && final(minv)@[j] == old(minv)@[j],
        forall|j: int| 1 <= j <= n && !used@[j] ==> (#[trigger] final(minv)@[j]) < i64::MAX,
        1 <= res.1 <= n,
        !used@[res.1 as int],
        final(minv)@[res.1 as int] == res.0,
        forall|j: int| 1 <= j <= n && !used@[j] ==> res.0 <= #[trigger] final(minv)@[j],
        0 <= res.0,
{
    let ghost cs = cost@;
    let ghost minv0 = minv@;
    let ghost way0 = way@;
    let i0 = p[j0];
    let mut delta: i64 = i64::MAX;
    let mut j1: usize = 0;
    let mut j: usize = 1;
    while j <= n
        invariant
            cs == cost@,
            shape(cs, n_rows as int, n as int),
            u@.len() == n_rows + 1,
            v@.len() == n + 1,
            p@.len() == n + 1,
            used@.len() == n + 1,
            minv@.len() == n + 1,
            way@.len() == n + 1,
            minv0.len() == n + 1,
            way0.len() == n + 1,
            1 <= j <= n + 1,
            j0 <= n,
            used@[j0 as int],
            i0 == p@[j0 as int],
            tree_rows(p@, used@, n_rows as int, n as int),
            bounded(u@, v@, n_rows as int, n as int),
            feasible(cs, u@, v@, n_rows as int, n as int),
            minv_ok(cs, u@, v@, p@, way0, minv0, used@, n as int, j0 as int),
            forall|jj: int|
                (j <= jj <= n || (0 <= jj <= n && used@[jj])) ==> way@[jj] == way0[jj] && minv@[jj]
                    == minv0[jj],
            forall|jj: int|
                1 <= jj < j && !used@[jj] ==> (#[trigger] way@[jj]) <= n && used@[way@[jj] as int],
            forall|jj: int|
                1 <= jj < j && !used@[jj] ==> #[trigger] minv@[jj] == red(cs, u@, v@, p@, way@[jj] as int, jj),
            forall|jj: int, k: int|
                1 <= jj < j && !used@[jj] && 0 <= k <= n && used@[k] ==> (#[trigger] minv@[jj]) <= #[trigger] red(
                    cs,
                    u@,
                    v@,
                    p@,
                    k,
                    jj,
                ),
            forall|jj: int| 1 <= jj < j && !used@[jj] ==> delta <= #[trigger] minv@[jj],
            delta < i64::MAX ==> 1 <= j1 < j && !used@[j1 as int] && minv@[j1 as int] == delta,
        decreases n + 1 - j,
    {
        let ghost minv_b = minv@;
        let ghost way_b = way@;
        let ghost delta_b = delta;
        if !used[j] {
            proof {
                assert(1 <= i0 <= n_rows);
                assert(cs[i0 - 1]@.len() >= n);
                assert(u@[i0 as int] <= big());
                assert(v@[j as int] >= -big());
            }
            let cij = cost[i0 - 1][j - 1] as i64;
            let cur = cij - u[i0] - v[j];
            proof {
                assert(cur == red(cs, u@, v@, p@, j0 as int, j as int));
            }
            if cur < minv[j] {
                minv.set(j, cur);
                way.set(j, j0);
            }
            proof {
                let jj = j as int;
                if minv@[jj] != cur {
                    assert(minv@[jj] == minv0[jj]);
                    assert(minv0[jj] <= cur);
                    assert(minv0[jj] != i64::MAX);
                }
                assert forall|k: int| 0 <= k <= n && used@[k] implies (#[trigger] minv@[jj]) <= #[trigger] red(
                    cs,
                    u@,
                    v@,
                    p@,
                    k,
                    jj,
                ) by {
                    if k != j0 {
                        assert(minv0[jj] <= red(cs, u@, v@, p@, k, jj));
                    }
                }
            }
            if minv[j] < delta {
                delta = minv[j];
                j1 = j;
            }
            proof {
                let jj = j as int;
                assert(way@[jj] <= n && used@[way@[jj] as int]);
                assert(minv@[jj] == red(cs, u@, v@, p@, way@[jj] as int, jj));
                assert(delta <= minv@[jj]);
            }
        }
        proof {
            assert forall|jj: int| 1 <= jj <= j && !used@[jj] implies {
                &&& way@[jj] <= n
                &&& used@[way@[jj] as int]
                &&& minv@[jj] == red(cs, u@, v@, p@, way@[jj] as int, jj)
                &&& forall|k: int|
                    0 <= k <= n && used@[k] ==> (#[trigger] minv@[jj]) <= #[trigger] red(cs, u@, v@, p@, k, jj)
                &&& delta <= minv@[jj]
            } by {
                if jj == j {
                    assert(delta <= minv@[jj]);
                    assert(way@[jj] <= n);
                    assert(used@[way@[jj] as int]);
                    assert(minv@[jj] == red(cs, u@, v@, p@, way@[jj] as int, jj));
                } else {
                assert(minv@[jj] == minv_b[jj]);
                assert(way@[jj] == way_b[jj]);
                assert(delta <= delta_b);
                assert(delta_b <= minv_b[jj]);
                assert forall|k: int| 0 <= k <= n && used@[k] implies (#[trigger] minv@[jj]) <= #[trigger] red(
                    cs,
                    u@,
                    v@,
                    p@,
                    k,
                    jj,
                ) by {
                    assert(minv_b[jj] <= red(cs, u@, v@, p@, k, jj));
                }
                }
            }
        }
        j += 1;
    }
    proof {
        let f = choose|f: int| 1 <= f <= n && !(#[trigger] used@[f]);
        assert(delta <= minv@[f]);
        let k = way@[f] as int;
        assert(minv@[f] == red(cs, u@, v@, p@, k, f));
        assert(u@[p@[k] as int] + v@[f] <= c(cs, p@[k] as int, f));
        assert forall|jj: int| 1 <= jj <= n && !used@[jj] implies (#[trigger] minv@[jj]) < i64::MAX by {
            let kk = way@[jj] as int;
            assert(minv@[jj] == red(cs, u@, v@, p@, kk, jj));
            assert(used@[kk]);
            assert(1 <= p@[kk] <= n_rows);
            assert(cs[p@[kk] - 1]@[jj - 1] <= u32::MAX);
            assert(u@[p@[kk] as int] >= 0);
            assert(v@[jj] >= -big());
        }
    }
    (delta, j1)
}

/// Row `r` is the row of a tree column below `j`.
spec fn in_tree(p: Seq<usize>, used: Seq<bool>, j: int, r: int) -> bool {
    exists|k: int| 0 <= k < j && used[k] && (#[trigger] p[k]) == r
}

/// Moves the potentials by `delta`: up on the rows of the tree, down on its
/// columns; the columns outside the tree come `delta` closer in `minv`.
fn shift_potentials(
    u: &mut Vec<i64>,
    v: &mut Vec<i64>,
    minv: &mut Vec<i64>,
    p: &Vec<usize>,
    used: &Vec<bool>,
    delta: i64,
    n_rows: usize,
    n: usize,
)
    requires
        n < usize::MAX,
        old(u)@.len() == n_rows + 1,
        old(v)@.len() == n + 1,
        old(minv)@.len() == n + 1,
        p@.len() == n + 1,
        used@.len() == n + 1,
        0 <= delta <= 4 * big(),
        tree_rows(p@, used@, n_rows as int, n as int),
        forall|r: int| 0 <= r <= n_rows ==> 0 <= #[trigger] old(u)@[r] <= big(),
        forall|j: int| 0 <= j <= n && used@[j] ==> i64::MIN + delta <= #[trigger] old(v)@[j],
        forall|j: int| 0 <= j <= n && !used@[j] ==> delta <= #[trigger] old(minv)@[j],
        forall|a: int, b: int|
            0 <= a <= n && 0 <= b <= n && a != b && used@[a] && used@[b] ==> (#[trigger] p@[a]) != (
            #[trigger] p@[b]),
    ensures
        final(u)@.len() == n_rows + 1,
        final(v)@.len() == n + 1,
        final(minv)@.len() == n + 1,
        forall|r: int|
            0 <= r <= n_rows ==> #[trigger] final(u)@[r] == old(u)@[r] + if in_tree(
                p@,
                used@,
                n + 1,
                r,
            ) {
                delta as int
            } else {
                0
            },
        forall|j: int|
            0 <= j <= n ==> #[trigger] final(v)@[j] == if used@[j] {
                old(v)@[j] - delta
            } else {
                old(v)@[j] as int
            },
        forall|j: int|
            0 <= j <= n ==> #[trigger] final(minv)@[j] == if used@[j] {
                old(minv)@[j] as int
            } else {
                old(minv)@[j] - delta
            },
{
    let ghost u0 = u@;
    let ghost v0 = v@;
    let ghost m0 = minv@;
    let mut j: usize = 0;
    while j <= n
        invariant
            n < usize::MAX,
            0 <= j <= n + 1,
            u@.len() == n_rows + 1,
            v@.len() == n + 1,
            minv@.len() == n + 1,
            p@.len() == n + 1,
            used@.len() == n + 1,
            0 <= delta <= 4 * big(),
            tree_rows(p@, used@, n_rows as int, n as int),
            forall|r: int| 0 <= r <= n_rows ==> 0 <= #[trigger] u0[r] <= big(),
            forall|jj: int| 0 <= jj <= n && used@[jj] ==> i64::MIN + delta <= #[trigger] v0[jj],
            forall|jj: int| 0 <= jj <= n && !used@[jj] ==> delta <= #[trigger] m0[jj],
            forall|a: int, b: int|
                0 <= a <= n && 0 <= b <= n && a != b && used@[a] && used@[b] ==> (#[trigger] p@[a]) != (
                #[trigger] p@[b]),
            forall|r: int|
                0 <= r <= n_rows ==> #[trigger] u@[r] == u0[r] + if in_tree(p@, used@, j as int, r) {
                    delta as int
                } else {
                    0
                },
            forall|jj: int|
                0 <= jj < j ==> #[trigger] v@[jj] == if used@[jj] {
                    v0[jj] - delta
                } else {
                    v0[jj] as int
                },
            forall|jj: int|
                0 <= jj < j ==> #[trigger] minv@[jj] == if used@[jj] {
                    m0[jj] as int
                } else {
                    m0[jj] - delta
                },
            forall|jj: int| j <= jj <= n ==> #[trigger] v@[jj] == v0[jj],
            forall|jj: int| j <= jj <= n ==> #[trigger] minv@[jj] == m0[jj],
            u0.len() == n_rows + 1,
            v0.len() == n + 1,
            m0.len() == n + 1,
        decreases n + 1 - j,
    {
        let ghost ub = u@;
        if used[j] {
            let r = p[j];
            proof {
                assert(!in_tree(p@, used@, j as int, r as int)) by {
                    if in_tree(p@, used@, j as int, r as int) {
                        let k = choose|k: int| 0 <= k < j && used@[k] && (#[trigger] p@[k]) == r;
                        assert(p@[k] != p@[j as int]);
                    }
                }
                assert(u@[r as int] == u0[r as int]);
            }
            u.set(r, u[r] + delta);
            v.set(j, v[j] - delta);
            proof {
                assert forall|rr: int| 0 <= rr <= n_rows implies #[trigger] u@[rr] == u0[rr] + if in_tree(
                    p@,
                    used@,
                    j + 1,
                    rr,
                ) {
                    delta as int
                } else {
                    0
                } by {
                    if rr == r {
                        assert(p@[j as int] == rr);
                        assert(in_tree(p@, used@, j + 1, rr));
                    } else {
                        if in_tree(p@, used@, j + 1, rr) {
                            let k = choose|k: int| 0 <= k < j + 1 && used@[k] && (#[trigger] p@[k]) == rr;
                            assert(k != j);
                            assert(in_tree(p@, used@, j as int, rr));
                        }
                        if in_tree(p@, used@, j as int, rr) {
                            let k = choose|k: int| 0 <= k < j && used@[k] && (#[trigger] p@[k]) == rr;
                            assert(in_tree(p@, used@, j + 1, rr));
                        }
                        assert(u@[rr] == ub[rr]);
                    }
                }
            }
        } else {
            minv.set(j, minv[j] - delta);
            proof {
                assert forall|rr: int| 0 <= rr <= n_rows implies #[trigger] u@[rr] == u0[rr] + if in_tree(
                    p@,
                    used@,
                    j + 1,
                    rr,
                ) {
                    delta as int
                } else {
                    0
                } by {
                    if in_tree(p@, used@, j + 1, rr) {
                        let k = choose|k: int| 0 <= k < j + 1 && used@[k] && (#[trigger] p@[k]) == rr;
                        assert(k != j);
                        assert(in_tree(p@, used@, j as int, rr));
                    }
                    if in_tree(p@, used@, j as int, rr) {
                        let k = choose|k: int| 0 <= k < j && used@[k] && (#[trigger] p@[k]) == rr;
                        assert(in_tree(p@, used@, j + 1, rr));
                    }
                }
            }
        }
        j += 1;
    }
}


/// Skipping a free column changes nothing.
proof fn lemma_rows_once_skip_free(p: Seq<usize>, n: int, f: int, top: int)
    requires
        0 <= f <= n,
        p[f] == 0,
        rows_once(p, 0, n, -1, top),
    ensures
        rows_once(p, 0, n, f, top),
{
    assert forall|r: int| 1 <= r <= top implies #[trigger] row_present(p, 0, n, f, r) by {
        assert(row_present(p, 0, n, -1, r));
        let a = choose|a: int| 0 <= a <= n && a != -1 && (#[trigger] p[a]) == r;
        assert(a != f);
    }
}

/// Copying the row of column `t` into the skipped column `s`, and skipping
/// `t` instead, keeps every row exactly once.
proof fn lemma_rows_once_move(p: Seq<usize>, n: int, s: int, t: int, top: int)
    requires
        0 <= s <= n,
        0 <= t <= n,
        s != t,
        p.len() == n + 1,
        rows_once(p, 0, n, s, top),
    ensures
        rows_once(p.update(s, p[t]), 0, n, t, top),
{
    let q = p.update(s, p[t]);
    assert forall|a: int| 0 <= a <= n && a != t implies (#[trigger] q[a]) <= top by {
        if a == s {
            assert(q[a] == p[t]);
        } else {
            assert(q[a] == p[a]);
        }
    }
    assert forall|a: int, b: int|
        0 <= a <= n && 0 <= b <= n && a != t && b != t && a != b && (#[trigger] q[a]) != 0 implies q[a] != (
    #[trigger] q[b]) by {
        let aa = if a == s { t } else { a };
        let bb = if b == s { t } else { b };
        assert(q[a] == p[aa]);
        assert(q[b] == p[bb]);
    }
    assert forall|r: int| 1 <= r <= top implies #[trigger] row_present(q, 0, n, t, r) by {
        assert(row_present(p, 0, n, s, r));
        let a = choose|a: int| 0 <= a <= n && a != s && (#[trigger] p[a]) == r;
        if a == t {
            assert(q[s] == r);
        } else {
            assert(q[a] == r);
        }
    }
}

/// `rows_once` reads only the columns `lo..=n`.
proof fn lemma_rows_once_frame(p: Seq<usize>, q: Seq<usize>, lo: int, n: int, skip: int, top: int)
    requires
        forall|a: int| lo <= a <= n ==> #[trigger] q[a] == p[a],
        rows_once(p, lo, n, skip, top),
    ensures
        rows_once(q, lo, n, skip, top),
{
    assert forall|r: int| 1 <= r <= top implies #[trigger] row_present(q, lo, n, skip, r) by {
        assert(row_present(p, lo, n, skip, r));
        let a = choose|a: int| lo <= a <= n && a != skip && (#[trigger] p[a]) == r;
        assert(q[a] == r);
    }
}

/// With column 0 skipped, the range `0..=n` is the range `1..=n`.
proof fn lemma_rows_once_drop_zero(p: Seq<usize>, n: int, top: int)
    requires
        rows_once(p, 0, n, 0, top),
    ensures
        rows_once(p, 1, n, -1, top),
{
    assert forall|r: int| 1 <= r <= top implies #[trigger] row_present(p, 1, n, -1, r) by {
        assert(row_present(p, 0, n, 0, r));
        let a = choose|a: int| 0 <= a <= n && a != 0 && (#[trigger] p[a]) == r;
    }
}

/// With the row `top` in column 0, rows 1..=top each sit in one column.
proof fn lemma_rows_once_add_zero(p: Seq<usize>, n: int, top: int)
    requires
        top >= 1,
        n >= 0,
        p[0] == top,
        rows_once(p, 1, n, -1, top - 1),
    ensures
        rows_once(p, 0, n, -1, top),
{
    assert forall|r: int| 1 <= r <= top implies #[trigger] row_present(p, 0, n, -1, r) by {
        if r < top {
            assert(row_present(p, 1, n, -1, r));
            let a = choose|a: int| 1 <= a <= n && a != -1 && (#[trigger] p[a]) == r;
            assert(0 <= a <= n && a != -1 && p[a] == r);
        } else {
            assert(p[0] == r);
        }
    }
}

/// Flips the alternating path that ends in the free column `j_free`: each
/// column on it takes the row of the column it was reached from, and the row
/// held by column 0 enters the matching.
fn augment(
    p: &mut Vec<usize>,
    way: &Vec<usize>,
    j_free: usize,
    n_rows: usize,
    n: usize,
    top: usize,
    Ghost(cs): Ghost<Seq<Vec<u32>>>,
    Ghost(u): Ghost<Seq<i64>>,
    Ghost(v): Ghost<Seq<i64>>,
    Ghost(used): Ghost<Seq<bool>>,
    Ghost(tick): Ghost<Seq<int>>,
)
    requires
        shape(cs, n_rows as int, n as int),
        old(p)@.len() == n + 1,
        way@.len() == n + 1,
        used.len() == n + 1,
        tick.len() == n + 1,
        u.len() == n_rows + 1,
        v.len() == n + 1,
        1 <= j_free <= n,
        old(p)@[j_free as int] == 0,
        rows_once(old(p)@, 0, n as int, -1, top as int),
        used[0],
        tick[0] == 0,
        forall|k: int| 0 <= k <= n ==> #[trigger] tick[k] >= 0,
        forall|k: int| 1 <= k <= n && #[trigger] used[k] ==> tick[k] >= 1,
        forall|k: int|
            1 <= k <= n && (used[k] || k == j_free) ==> {
                &&& (#[trigger] way@[k]) <= n
                &&& used[way@[k] as int]
                &&& tick[way@[k] as int] < tick[k]
                &&& u[old(p)@[way@[k] as int] as int] + v[k] == c(cs, old(p)@[way@[k] as int] as int, k)
            },
        tree_rows(old(p)@, used, n_rows as int, n as int),
        tight(cs, u, v, old(p)@, n as int),
    ensures
        final(p)@.len() == n + 1,
        rows_once(final(p)@, 1, n as int, -1, top as int),
        tight(cs, u, v, final(p)@, n as int),
        forall|j: int| 1 <= j <= n && #[trigger] final(p)@[j] == 0 ==> old(p)@[j] == 0,
{
    let ghost p0 = p@;
    let mut j0 = j_free;
    proof {
        lemma_rows_once_skip_free(p@, n as int, j_free as int, top as int);
    }
    loop
        invariant_except_break
            1 <= j0 <= n,
            used[j0 as int] || j0 == j_free,
            rows_once(p@, 0, n as int, j0 as int, top as int),
            p@[j0 as int] == p0[j0 as int],
            forall|a: int| 0 <= a <= n && used[a] && tick[a] < tick[j0 as int] ==> #[trigger] p@[a] == p0[a],
        invariant
            shape(cs, n_rows as int, n as int),
            p@.len() == n + 1,
            p0.len() == n + 1,
            way@.len() == n + 1,
            used.len() == n + 1,
            tick.len() == n + 1,
            u.len() == n_rows + 1,
            v.len() == n + 1,
            used[0],
            tick[0] == 0,
            forall|k: int| 0 <= k <= n ==> #[trigger] tick[k] >= 0,
            forall|k: int| 1 <= k <= n && #[trigger] used[k] ==> tick[k] >= 1,
            forall|k: int|
                1 <= k <= n && (used[k] || k == j_free) ==> {
                    &&& (#[trigger] way@[k]) <= n
                    &&& used[way@[k] as int]
                    &&& tick[way@[k] as int] < tick[k]
                    &&& u[p0[way@[k] as int] as int] + v[k] == c(cs, p0[way@[k] as int] as int, k)
                },
            tree_rows(p0, used, n_rows as int, n as int),
            tight(cs, u, v, p@, n as int),
            forall|j: int| 1 <= j <= n && #[trigger] p@[j] == 0 ==> p0[j] == 0,
        ensures
            rows_once(p@, 0, n as int, 0, top as int),
        decreases tick[j0 as int],
    {
        let j1 = way[j0];
        let row = p[j1];
        proof {
            assert(used[j1 as int]);
            if j1 != 0 {
                assert(tick[j1 as int] < tick[j0 as int]);
            }
            assert(row == p0[j1 as int]);
            lemma_rows_once_move(p@, n as int, j0 as int, j1 as int, top as int);
        }
        let ghost pb = p@;
        p.set(j0, row);
        proof {
            assert forall|j: int| 1 <= j <= n && (#[trigger] p@[j]) != 0 implies u[p@[j] as int] + v[j] == c(
                cs,
                p@[j] as int,
                j,
            ) by {
                if j != j0 {
                    assert(p@[j] == pb[j]);
                }
            }
            assert forall|j: int| 1 <= j <= n && #[trigger] p@[j] == 0 implies p0[j] == 0 by {
                if j != j0 {
                    assert(p@[j] == pb[j]);
                } else {
                    assert(1 <= p0[j1 as int]);
                }
            }
        }
        j0 = j1;
        if j0 == 0 {
            break;
        }
    }
    proof {
        lemma_rows_once_drop_zero(p@, n as int, top as int);
    }
}


/// The tree edge into column `k` (from the row of column `way[k]`) is tight.
spec fn tree_edge(cost: Seq<Vec<u32>>, u: Seq<i64>, v: Seq<i64>, p: Seq<usize>, way: Seq<usize>, k: int) -> bool {
    u[p[way[k] as int] as int] + v[k] == c(cost, p[way[k] as int] as int, k)
}

/// After the shift by the least `minv` outside the tree, the potentials stay
/// feasible and bounded, matched and tree edges stay tight, `minv` stays
/// correct, and the edge into the selected column `j1` becomes tight.
proof fn lemma_after_shift(
    cs: Seq<Vec<u32>>,
    u: Seq<i64>,
    v: Seq<i64>,
    minv: Seq<i64>,
    u2: Seq<i64>,
    v2: Seq<i64>,
    minv2: Seq<i64>,
    p: Seq<usize>,
    way: Seq<usize>,
    used: Seq<bool>,
    delta: int,
    n_rows: int,
    n: int,
    top: int,
    j1: int,
    f: int,
)
    requires
        shape(cs, n_rows, n),
        u.len() == n_rows + 1,
        v.len() == n + 1,
        minv.len() == n + 1,
        p.len() == n + 1,
        way.len() == n + 1,
        used.len() == n + 1,
        1 <= top <= n_rows,
        p[0] == top,
        used[0],
        feasible(cs, u, v, n_rows, n),
        tight(cs, u, v, p, n),
        bounded(u, v, n_rows, n),
        rows_once(p, 0, n, -1, top),
        tree_rows(p, used, n_rows, n),
        minv_ok(cs, u, v, p, way, minv, used, n, -1),
        forall|j: int| 1 <= j <= n && !used[j] ==> (#[trigger] minv[j]) < i64::MAX && delta <= minv[j],
        0 <= delta,
        1 <= f <= n,
        p[f] == 0,
        !used[f],
        v[f] == 0,
        forall|j: int| 1 <= j <= n && #[trigger] p[j] == 0 ==> !used[j],
        forall|k: int| 1 <= k <= n && #[trigger] used[k] ==> way[k] <= n && used[way[k] as int] && tree_edge(cs, u, v, p, way, k),
        1 <= j1 <= n,
        !used[j1],
        minv[j1] == delta,
        u2.len() == n_rows + 1,
        v2.len() == n + 1,
        minv2.len() == n + 1,
        forall|r: int| 0 <= r <= n_rows ==> #[trigger] u2[r] == u[r] + if in_tree(p, used, n + 1, r) {
            delta
        } else {
            0
        },
        forall|j: int| 0 <= j <= n ==> #[trigger] v2[j] == if used[j] {
            v[j] - delta
        } else {
            v[j] as int
        },
        forall|j: int| 0 <= j <= n ==> #[trigger] minv2[j] == if used[j] {
            minv[j] as int
        } else {
            minv[j] - delta
        },
    ensures
        feasible(cs, u2, v2, n_rows, n),
        tight(cs, u2, v2, p, n),
        bounded(u2, v2, n_rows, n),
        minv_ok(cs, u2, v2, p, way, minv2, used, n, -1),
        forall|k: int| 1 <= k <= n && #[trigger] used[k] ==> tree_edge(cs, u2, v2, p, way, k),
        way[j1] <= n,
        used[way[j1] as int],
        tree_edge(cs, u2, v2, p, way, j1),
        u2[top] == u[top] + delta,
        forall|r: int| top < r <= n_rows ==> #[trigger] u2[r] == u[r],
        forall|j: int| 1 <= j <= n && !used[j] ==> #[trigger] v2[j] == v[j],
{
    // The rows of the tree are the rows of its columns.
    assert forall|k: int| 0 <= k <= n && #[trigger] used[k] implies in_tree(p, used, n + 1, p[k] as int) by {
        assert(p[k] == p[k]);
    }
    assert forall|r: int| 0 <= r <= n_rows && #[trigger] in_tree(p, used, n + 1, r) implies 1 <= r <= top by {
        let k = choose|k: int| 0 <= k < n + 1 && used[k] && (#[trigger] p[k]) == r;
        assert(p[k] <= top);
    }
    // A column outside the tree does not hold a tree row.
    assert forall|j: int| 1 <= j <= n && !used[j] && p[j] != 0 implies !in_tree(p, used, n + 1, #[trigger] p[j] as int) by {
        if in_tree(p, used, n + 1, p[j] as int) {
            let k = choose|k: int| 0 <= k < n + 1 && used[k] && (#[trigger] p[k]) == p[j];
            assert(k != j);
        }
    }
    assert forall|r: int, j: int| 1 <= r <= n_rows && 1 <= j <= n implies (#[trigger] u2[r]) + (#[trigger] v2[j])
        <= c(cs, r, j) by {
        assert(u[r] + v[j] <= c(cs, r, j));
        if in_tree(p, used, n + 1, r) && !used[j] {
            let k = choose|k: int| 0 <= k < n + 1 && used[k] && (#[trigger] p[k]) == r;
            assert(minv[j] <= red(cs, u, v, p, k, j));
        }
    }
    assert forall|j: int| 1 <= j <= n && (#[trigger] p[j]) != 0 implies u2[p[j] as int] + v2[j] == c(
        cs,
        p[j] as int,
        j,
    ) by {
        assert(u[p[j] as int] + v[j] == c(cs, p[j] as int, j));
        if used[j] {
            assert(in_tree(p, used, n + 1, p[j] as int));
        }
    }
    assert(u2[f] == u2[f]);
    assert forall|r: int| 0 <= r <= n_rows implies 0 <= #[trigger] u2[r] <= big() by {
        if r >= 1 {
            assert(u2[r] + v2[f] <= c(cs, r, f));
            assert(cs[r - 1]@[f - 1] <= u32::MAX);
        } else {
            assert(!in_tree(p, used, n + 1, 0));
        }
    }
    assert forall|j: int| 1 <= j <= n implies -big() <= #[trigger] v2[j] <= 0 by {
        if p[j] != 0 {
            assert(u2[p[j] as int] + v2[j] == c(cs, p[j] as int, j));
            assert(u2[p[j] as int] <= big());
        }
    }
    assert forall|j: int| 1 <= j <= n && !used[j] implies {
        &&& forall|k: int|
            0 <= k <= n && used[k] && k != -1 ==> (#[trigger] minv2[j]) <= #[trigger] red(cs, u2, v2, p, k, j)
        &&& minv2[j] == i64::MAX || (way[j] <= n && used[way[j] as int] && minv2[j] == red(
            cs,
            u2,
            v2,
            p,
            way[j] as int,
            j,
        ))
    } by {
        assert forall|k: int| 0 <= k <= n && used[k] && k != -1 implies (#[trigger] minv2[j]) <= #[trigger] red(
            cs,
            u2,
            v2,
            p,
            k,
            j,
        ) by {
            assert(minv[j] <= red(cs, u, v, p, k, j));
            assert(in_tree(p, used, n + 1, p[k] as int));
        }
        assert(minv[j] != i64::MAX);
        let w = way[j] as int;
        assert(in_tree(p, used, n + 1, p[w] as int));
    }
    assert forall|k: int| 1 <= k <= n && #[trigger] used[k] implies tree_edge(cs, u2, v2, p, way, k) by {
        let w = way[k] as int;
        assert(in_tree(p, used, n + 1, p[w] as int));
        assert(in_tree(p, used, n + 1, p[k] as int));
    }
    let w = way[j1] as int;
    assert(minv[j1] != i64::MAX);
    assert(in_tree(p, used, n + 1, p[w] as int));
    assert(in_tree(p, used, n + 1, top));
    assert forall|r: int| top < r <= n_rows implies #[trigger] u2[r] == u[r] by {
        assert(!in_tree(p, used, n + 1, r));
    }
}


/// The cost of a prefix of an assignment is at most the cost of the whole.
proof fn lemma_cost_prefix(cost: Seq<Vec<u32>>, a: Seq<usize>, k: int)
    requires
        0 <= k <= a.len(),
    ensures
        assignment_cost(cost, a.take(k)) <= assignment_cost(cost, a),
    decreases a.len(),
{
    if k < a.len() {
        lemma_cost_prefix(cost, a.drop_last(), k);
        assert(a.drop_last().take(k) =~= a.take(k));
    } else {
        assert(a.take(k) =~= a);
    }
}

/// Hungarian algorithm for minimum-cost bipartite matching: returns the
/// minimum total cost and the assignment (row to column). `cost[i][j]` is the
/// cost of assigning row `i` to column `j`; there are at least as many
/// columns as rows.
/// Assigning each row to the column of the same index is an assignment of
/// a square matrix, and when no entry exceeds `bound` it costs at most
/// `bound` per row.
pub proof fn lemma_identity_assignment(cost: Seq<Vec<u32>>, bound: int)
    requires
        cost.len() <= usize::MAX,
        forall|r: int| 0 <= r < cost.len() ==> (#[trigger] cost[r])@.len() == cost.len(),
        forall|r: int, j: int| 0 <= r < cost.len() && 0 <= j < cost.len() ==> (#[trigger] cost[r]@[j]) <= bound,
    ensures
        is_assignment(Seq::new(cost.len(), |i: int| i as usize), cost.len() as int, cost.len() as int),
        assignment_cost(cost, Seq::new(cost.len(), |i: int| i as usize)) <= cost.len() * bound,
{
    let n = cost.len() as int;
    let a = Seq::new(cost.len(), |i: int| i as usize);
    lemma_identity_prefix_cost(cost, bound, n);
    assert(a.take(n) =~= a);
}

proof fn lemma_identity_prefix_cost(cost: Seq<Vec<u32>>, bound: int, k: int)
    requires
        0 <= k <= cost.len(),
        cost.len() <= usize::MAX,
        forall|r: int| 0 <= r < cost.len() ==> (#[trigger] cost[r])@.len() == cost.len(),
        forall|r: int, j: int| 0 <= r < cost.len() && 0 <= j < cost.len() ==> (#[trigger] cost[r]@[j]) <= bound,
    ensures
        assignment_cost(cost, Seq::new(cost.len(), |i: int| i as usize).take(k)) <= k * bound,
    decreases k,
{
    let a = Seq::new(cost.len(), |i: int| i as usize);
    let x = a.take(k);
    if k == 0 {
        assert(x.len() == 0);
        assert(0 * bound == 0);
    } else {
        lemma_identity_prefix_cost(cost, bound, k - 1);
        assert(x.drop_last() =~= a.take(k - 1));
        assert(x.last() == (k - 1) as usize);
        assert(cost[k - 1]@[k - 1] <= bound);
        assert(assignment_cost(cost, x) == assignment_cost(cost, x.drop_last()) + cost[k - 1]@[k - 1] as int);
        assert((k - 1) * bound + bound == k * bound) by (nonlinear_arith);
    }
}

pub fn hungarian(cost: &[Vec<u32>]) -> (res: (u32, Vec<usize>))
    requires
        well_shaped(cost@),
        cost@.len() < 0x8000_0000,
        column_count(cost@) < usize::MAX,
        exists|a: Seq<usize>|
            is_assignment(a, cost@.len() as int, column_count(cost@)) && assignment_cost(cost@, a)
                <= u32::MAX,
    ensures
        is_assignment(res.1@, cost@.len() as int, column_count(cost@)),
        res.0 == assignment_cost(cost@, res.1@),
        forall|a: Seq<usize>|
            is_assignment(a, cost@.len() as int, column_count(cost@)) ==> assignment_cost(cost@, res.1@)
                <= assignment_cost(cost@, a),
{
    let n_rows = cost.len();
    if n_rows == 0 {
        let empty: Vec<usize> = Vec::new();
        proof {
            assert forall|a: Seq<usize>| is_assignment(a, 0, column_count(cost@)) implies assignment_cost(
                cost@,
                empty@,
            ) <= assignment_cost(cost@, a) by {
                assert(a.len() == 0);
            }
        }
        return (0, empty);
    }
    let n_cols = cost[0].len();
    let n = n_cols;
    let ghost cs = cost@;

    let mut u: Vec<i64> = vec![0i64; n_rows + 1];
    let mut v: Vec<i64> = vec![0i64; n + 1];
    let mut p: Vec<usize> = vec![0usize; n + 1];
    let mut way: Vec<usize> = vec![0usize; n + 1];

    let mut i: usize = 1;
    while i <= n_rows
        invariant
            cs == cost@,
            shape(cs, n_rows as int, n as int),
            n_rows < 0x8000_0000,
            1 <= i <= n_rows + 1,
            u@.len() == n_rows + 1,
            v@.len() == n + 1,
            p@.len() == n + 1,
            way@.len() == n + 1,
            feasible(cs, u@, v@, n_rows as int, n as int),
            tight(cs, u@, v@, p@, n as int),
            rows_once(p@, 1, n as int, -1, i - 1),
            bounded(u@, v@, n_rows as int, n as int),
            forall|r: int| i <= r <= n_rows ==> #[trigger] u@[r] == 0,
            forall|j: int| 1 <= j <= n && (#[trigger] p@[j]) == 0 ==> v@[j] == 0,
            -(i - 1) * big() <= v@[0] <= 0,
        decreases n_rows + 1 - i,
    {
        // Phase i: insert row i into the matching.
        let ghost pb = p@;
        p.set(0, i);
        proof {
            lemma_rows_once_frame(pb, p@, 1, n as int, -1, i - 1);
        }
        let mut j0: usize = 0;
        let mut minv: Vec<i64> = vec![i64::MAX; n + 1];
        let mut used: Vec<bool> = vec![false; n + 1];
        let ghost v0_start = v@[0] as int;
        let ghost mut tick: Seq<int> = Seq::new((n + 1) as nat, |k: int| 0int);
        let ghost mut nused: nat = 1;
        proof {
            lemma_rows_once_add_zero(p@, n as int, i as int);
            lemma_free_column(p@, n as int, i - 1);
            lemma_count_true_set(used@, 0);
            assert(used@.update(0, true) =~= used@.update(0, true));
            assert(count_true(used@) == 0) by {
                assert(forall|k: int| 0 <= k <= n ==> !used@[k]);
                lemma_count_false(used@);
            }
        }
        used.set(0, true);
        loop
            invariant_except_break
                j0 <= n,
                used@[j0 as int],
                p@[j0 as int] != 0,
                tick[j0 as int] == nused - 1,
                minv_ok(cs, u@, v@, p@, way@, minv@, used@, n as int, j0 as int),
            invariant
                cs == cost@,
                shape(cs, n_rows as int, n as int),
                n_rows < 0x8000_0000,
                1 <= i <= n_rows,
                u@.len() == n_rows + 1,
                v@.len() == n + 1,
                p@.len() == n + 1,
                way@.len() == n + 1,
                minv@.len() == n + 1,
                used@.len() == n + 1,
                tick.len() == n + 1,
                p@[0] == i,
                used@[0],
                rows_once(p@, 1, n as int, -1, i - 1),
                rows_once(p@, 0, n as int, -1, i as int),
                feasible(cs, u@, v@, n_rows as int, n as int),
                tight(cs, u@, v@, p@, n as int),
                bounded(u@, v@, n_rows as int, n as int),
                tree_rows(p@, used@, n_rows as int, n as int),
                forall|r: int| i < r <= n_rows ==> #[trigger] u@[r] == 0,
                forall|j: int| 1 <= j <= n && (#[trigger] p@[j]) == 0 ==> v@[j] == 0 && !used@[j],
                v@[0] == v0_start - u@[i as int],
                -(i - 1) * big() <= v0_start <= 0,
                nused == count_true(used@),
                nused >= 1,
                tick[0] == 0,
                forall|k: int| 0 <= k <= n ==> #[trigger] tick[k] >= 0,
                forall|k: int| 0 <= k <= n && #[trigger] used@[k] ==> tick[k] < nused,
                forall|k: int| 1 <= k <= n && #[trigger] used@[k] ==> tick[k] >= 1,
                forall|k: int|
                    1 <= k <= n && #[trigger] used@[k] ==> way@[k] <= n && used@[way@[k] as int] && tick[way@[k] as int]
                        < tick[k] && tree_edge(cs, u@, v@, p@, way@, k),
            ensures
                1 <= j0 <= n,
                p@[j0 as int] == 0,
                !used@[j0 as int],
                way@[j0 as int] <= n,
                used@[way@[j0 as int] as int],
                tick[way@[j0 as int] as int] < tick[j0 as int],
                tree_edge(cs, u@, v@, p@, way@, j0 as int),
                tick[j0 as int] == nused,
            decreases n + 1 - nused,
        {
            let ghost f = choose|f: int| 1 <= f <= n && #[trigger] p@[f] == 0;
            proof {
                lemma_free_column(p@, n as int, i - 1);
                assert(p@[f] == 0);
                assert(!used@[f]);
            }
            let (delta, j1) = scan_columns(cost, &u, &v, &p, &used, &mut minv, &mut way, j0, n_rows, n);
            proof {
                // The new row reaches the free column f at reduced cost at
                // least delta, which bounds its potential after the shift.
                assert(delta <= minv@[f]);
                assert(minv@[f] <= red(cs, u@, v@, p@, 0, f));
                assert(u@[i as int] + delta <= c(cs, i as int, f));
                assert(cs[i - 1]@[f - 1] <= u32::MAX);
                assert(-(i as int) * big() >= i64::MIN) by (nonlinear_arith)
                    requires
                        i < 0x8000_0000,
                ;
                assert forall|j: int| 0 <= j <= n && used@[j] implies i64::MIN + delta <= #[trigger] v@[j] by {
                    if j == 0 {
                        assert(v@[0] - delta >= -(i as int) * big());
                    }
                }
                assert forall|a: int, b: int|
                    0 <= a <= n && 0 <= b <= n && a != b && used@[a] && used@[b] implies (#[trigger] p@[a]) != (
                    #[trigger] p@[b]) by {
                    assert(p@[a] != 0);
                }
                assert(v@[f] == 0);
            }
            let ghost ub = u@;
            let ghost vb = v@;
            let ghost mb = minv@;
            shift_potentials(&mut u, &mut v, &mut minv, &p, &used, delta, n_rows, n);
            proof {
                lemma_after_shift(
                    cs,
                    ub,
                    vb,
                    mb,
                    u@,
                    v@,
                    minv@,
                    p@,
                    way@,
                    used@,
                    delta as int,
                    n_rows as int,
                    n as int,
                    i as int,
                    j1 as int,
                    f,
                );
            }
            j0 = j1;
            proof {
                tick = tick.update(j0 as int, nused as int);
            }
            if p[j0] == 0 {
                break;
            }
            proof {
                lemma_count_true_set(used@, j0 as int);
            }
            used.set(j0, true);
            proof {
                nused = nused + 1;
            }
        }
        augment(&mut p, &way, j0, n_rows, n, i, Ghost(cs), Ghost(u@), Ghost(v@), Ghost(used@), Ghost(tick));
        i += 1;
    }

    // Read the assignment off the matching.
    let ghost pf = p@;
    let mut assignment: Vec<usize> = vec![0usize; n_rows];
    let mut j: usize = 1;
    while j <= n
        invariant
            cs == cost@,
            shape(cs, n_rows as int, n as int),
            p@ == pf,
            pf.len() == n + 1,
            rows_once(pf, 1, n as int, -1, n_rows as int),
            1 <= j <= n + 1,
            assignment@.len() == n_rows,
            forall|a: int| 1 <= a < j && 1 <= pf[a] <= n_rows ==> #[trigger] assignment@[pf[a] - 1] == a - 1,
        decreases n + 1 - j,
    {
        if p[j] > 0 && p[j] <= n_rows {
            let ghost ab = assignment@;
            assignment.set(p[j] - 1, j - 1);
            proof {
                assert forall|a: int| 1 <= a < j + 1 && 1 <= pf[a] <= n_rows implies #[trigger] assignment@[pf[a]
                    - 1] == a - 1 by {
                    if a != j {
                        assert(pf[a] != pf[j as int]);
                    }
                }
            }
        }
        j += 1;
    }
    let ghost a = assignment@;
    proof {
        // Every row sits in exactly one column, which the assignment names.
        assert forall|t: int| 0 <= t < n_rows implies 0 <= #[trigger] a[t] < n && pf[a[t] + 1] == t + 1 by {
            assert(row_present(pf, 1, n as int, -1, t + 1));
            let col = choose|col: int| 1 <= col <= n && col != -1 && (#[trigger] pf[col]) == t + 1;
            assert(a[pf[col] - 1] == col - 1);
        }
        assert(is_assignment(a, n_rows as int, n as int)) by {
            assert forall|t: int, k: int| 0 <= t < a.len() && 0 <= k < a.len() && t != k implies (#[trigger] a[t])
                != (#[trigger] a[k]) by {
                assert(pf[a[t] + 1] == t + 1);
                assert(pf[a[k] + 1] == k + 1);
            }
        }
        // Optimality: the duals bound every assignment from below, and this one
        // meets the bound.
        assert forall|t: int| 0 <= t < a.len() implies u@[t + 1] + v@[(#[trigger] a[t]) + 1] == c(
            cs,
            t + 1,
            a[t] + 1,
        ) by {
            assert(pf[a[t] + 1] == t + 1);
        }
        lemma_cost_ge_duals(cs, a, u@, v@, n as int);
        assert forall|jj: int| 1 <= jj <= n implies (#[trigger] v@[jj]) <= 0 by {}
        assert forall|jj: int|
            1 <= jj <= n && (forall|t: int| 0 <= t < a.len() ==> (#[trigger] a[t]) + 1 != jj) implies (#[trigger] v@[jj])
            == 0 by {
            if pf[jj] != 0 {
                assert(a[pf[jj] - 1] == jj - 1);
                assert(a[pf[jj] - 1] + 1 == jj);
            }
        }
        lemma_image_sum(a, v@, n as int);
        assert forall|b: Seq<usize>| is_assignment(b, n_rows as int, n as int) implies assignment_cost(cs, a)
            <= assignment_cost(cs, b) by {
            lemma_cost_ge_duals(cs, b, u@, v@, n as int);
            lemma_image_sum(b, v@, n as int);
        }
        let w = choose|w: Seq<usize>| is_assignment(w, n_rows as int, n as int) && assignment_cost(cs, w) <= u32::MAX;
        assert(assignment_cost(cs, a) <= u32::MAX);
    }

    let mut total: u32 = 0;
    let mut k: usize = 0;
    while k < n_rows
        invariant
            cs == cost@,
            shape(cs, n_rows as int, n as int),
            assignment@ == a,
            is_assignment(a, n_rows as int, n as int),
            assignment_cost(cs, a) <= u32::MAX,
            0 <= k <= n_rows,
            total == assignment_cost(cs, a.take(k as int)),
        decreases n_rows - k,
    {
        proof {
            lemma_cost_prefix(cs, a, k + 1);
            assert(a.take(k + 1).drop_last() =~= a.take(k as int));
            assert(cs[k as int]@.len() >= n);
        }
        total = total + cost[k][assignment[k]];
        k += 1;
    }
    proof {
        assert(a.take(n_rows as int) =~= a);
    }
    (total, assignment)
}

} // verus!
