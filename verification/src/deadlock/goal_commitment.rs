use vstd::prelude::*;

use crate::compiled_board::{CompiledBoard, INVALID_CELL};

verus! {

broadcast use vstd::std_specs::vec::group_vec_axioms;

// ----------------------------------------------------------------------
// Matchings in a bipartite graph given by adjacency lists: left vertex `u`
// is joined to every right vertex in `adj[u]`.
// ----------------------------------------------------------------------

/// Left vertex `u` is joined to right vertex `v`.
pub open spec fn edge(adj: Seq<Vec<usize>>, u: int, v: int) -> bool {
    exists|k: int| 0 <= k < adj[u]@.len() && adj[u]@[k] == v
}

/// `a` joins every left vertex to a right vertex of its own.
pub open spec fn perfect(adj: Seq<Vec<usize>>, n_right: int, a: Seq<int>) -> bool {
    &&& a.len() == adj.len()
    &&& forall|u: int| 0 <= u < a.len() ==> 0 <= #[trigger] a[u] < n_right && edge(adj, u, a[u])
    &&& forall|u: int, w: int| 0 <= u < a.len() && 0 <= w < a.len() && u != w ==> #[trigger] a[u] != #[trigger] a[w]
}

/// How many right vertices `mr` gives to left vertex `x`.
spec fn owners(mr: Seq<Option<usize>>, x: int) -> nat
    decreases mr.len(),
{
    if mr.len() == 0 {
        0
    } else {
        owners(mr.drop_last(), x) + if mr.last() == Some(x as usize) {
            1nat
        } else {
            0nat
        }
    }
}

proof fn lemma_owners_update(mr: Seq<Option<usize>>, v: int, val: Option<usize>, x: int)
    requires
        0 <= v < mr.len(),
    ensures
        owners(mr.update(v, val), x) + (if mr[v] == Some(x as usize) {
            1int
        } else {
            0int
        }) == owners(mr, x) + (if val == Some(x as usize) {
            1int
        } else {
            0int
        }),
    decreases mr.len(),
{
    if v < mr.len() - 1 {
        lemma_owners_update(mr.drop_last(), v, val, x);
        assert(mr.update(v, val).drop_last() =~= mr.drop_last().update(v, val));
    } else {
        assert(mr.update(v, val).drop_last() =~= mr.drop_last());
    }
}

/// A right vertex held by `x` is counted among its owners.
proof fn lemma_owners_pos(mr: Seq<Option<usize>>, v: int, x: int)
    requires
        0 <= v < mr.len(),
        mr[v] == Some(x as usize),
        x >= 0,
    ensures
        owners(mr, x) >= 1,
    decreases mr.len(),
{
    if v < mr.len() - 1 {
        lemma_owners_pos(mr.drop_last(), v, x);
    }
}

/// A left vertex with an owner holds some right vertex.
proof fn lemma_owners_witness(mr: Seq<Option<usize>>, x: int)
    requires
        owners(mr, x) >= 1,
        x >= 0,
    ensures
        exists|v: int| 0 <= v < mr.len() && mr[v] == Some(x as usize),
    decreases mr.len(),
{
    if mr.last() != Some(x as usize) {
        lemma_owners_witness(mr.drop_last(), x);
        let v = choose|v: int| 0 <= v < mr.len() - 1 && mr.drop_last()[v] == Some(x as usize);
        assert(mr[v] == Some(x as usize));
    } else {
        assert(mr[mr.len() - 1] == Some(x as usize));
    }
}

/// Two right vertices held by one left vertex give it two owners.
proof fn lemma_owners_two(mr: Seq<Option<usize>>, v: int, w: int, x: int)
    requires
        0 <= v < w < mr.len(),
        mr[v] == Some(x as usize),
        mr[w] == Some(x as usize),
        x >= 0,
    ensures
        owners(mr, x) >= 2,
    decreases mr.len(),
{
    if w < mr.len() - 1 {
        lemma_owners_two(mr.drop_last(), v, w, x);
    } else {
        lemma_owners_pos(mr.drop_last(), v, x);
    }
}

/// `mr` is a matching: every held right vertex is joined to its holder, and
/// no left vertex holds two right vertices.
spec fn matching(adj: Seq<Vec<usize>>, mr: Seq<Option<usize>>) -> bool {
    &&& forall|v: int|
        0 <= v < mr.len() && (#[trigger] mr[v]) is Some ==> mr[v]->0 < adj.len() && edge(adj, mr[v]->0 as int, v)
    &&& forall|x: int| 0 <= x < adj.len() ==> #[trigger] owners(mr, x) <= 1
}

/// The right vertices of `adj` are all below `n_right`.
spec fn adj_ok(adj: Seq<Vec<usize>>, n_right: int) -> bool {
    forall|u: int, k: int| 0 <= u < adj.len() && 0 <= k < adj[u]@.len() ==> #[trigger] adj[u]@[k] < n_right
}

/// How many right vertices are still unvisited.
spec fn unvisited(s: Seq<bool>) -> nat
    decreases s.len(),
{
    if s.len() == 0 {
        0
    } else {
        unvisited(s.drop_last()) + if s.last() {
            0nat
        } else {
            1nat
        }
    }
}

proof fn lemma_unvisited_set(s: Seq<bool>, i: int)
    requires
        0 <= i < s.len(),
        !s[i],
    ensures
        unvisited(s.update(i, true)) + 1 == unvisited(s),
    decreases s.len(),
{
    if i < s.len() - 1 {
        lemma_unvisited_set(s.drop_last(), i);
        assert(s.update(i, true).drop_last() =~= s.drop_last().update(i, true));
    } else {
        assert(s.update(i, true).drop_last() =~= s.drop_last());
    }
}

/// Visiting more leaves fewer unvisited.
proof fn lemma_unvisited_mono(s: Seq<bool>, t: Seq<bool>)
    requires
        s.len() == t.len(),
        forall|i: int| 0 <= i < s.len() && #[trigger] s[i] ==> t[i],
    ensures
        unvisited(t) <= unvisited(s),
    decreases s.len(),
{
    if s.len() > 0 {
        lemma_unvisited_mono(s.drop_last(), t.drop_last());
    }
}

/// Every neighbour of `u` has been visited.
spec fn all_visited(adj: Seq<Vec<usize>>, visited: Seq<bool>, u: int) -> bool {
    forall|k: int| 0 <= k < adj[u]@.len() ==> visited[#[trigger] adj[u]@[k] as int]
}

/// Depth-first search for an augmenting path from left vertex `u`. On success
/// the matching gains a right vertex for `u` (and keeps one for every other
/// left vertex); on failure nothing changes, every neighbour of `u` is
/// visited, and every right vertex visited here is held by a left vertex whose
/// neighbours are all visited.
fn augment(u: usize, adj: &Vec<Vec<usize>>, match_right: &mut Vec<Option<usize>>, visited: &mut Vec<bool>) -> (found: bool)
    requires
        u < adj@.len(),
        adj@.len() <= usize::MAX,
        adj_ok(adj@, old(match_right)@.len() as int),
        old(visited)@.len() == old(match_right)@.len(),
        matching(adj@, old(match_right)@),
        forall|v: int| 0 <= v < old(match_right)@.len() && #[trigger] old(match_right)@[v] == Some(u) ==> old(visited)@[v],
    ensures
        final(visited)@.len() == old(visited)@.len(),
        final(match_right)@.len() == old(match_right)@.len(),
        forall|v: int| 0 <= v < old(visited)@.len() && #[trigger] old(visited)@[v] ==> final(visited)@[v],
        found ==> {
            &&& forall|v: int| 0 <= v < old(visited)@.len() && old(visited)@[v] ==> #[trigger] final(match_right)@[v] == old(match_right)@[v]
            &&& forall|x: int| 0 <= x < adj@.len() ==> #[trigger] owners(final(match_right)@, x) == owners(old(match_right)@, x) + if x == u { 1int } else { 0int }
            &&& forall|v: int|
                0 <= v < final(match_right)@.len() && (#[trigger] final(match_right)@[v]) is Some ==> final(match_right)@[v]->0 < adj@.len()
                    && edge(adj@, final(match_right)@[v]->0 as int, v)
        },
        !found ==> {
            &&& final(match_right)@ == old(match_right)@
            &&& all_visited(adj@, final(visited)@, u as int)
            &&& forall|v: int|
                0 <= v < final(visited)@.len() && #[trigger] final(visited)@[v] && !old(visited)@[v] ==> old(match_right)@[v] is Some
                    && all_visited(adj@, final(visited)@, old(match_right)@[v]->0 as int)
        },
    decreases unvisited(old(visited)@),
{
    let ghost mr0 = match_right@;
    let ghost vis0 = visited@;
    let n_right = match_right.len();
    let mut k: usize = 0;
    while k < adj[u].len()
        invariant
            u < adj@.len(),
            adj@.len() <= usize::MAX,
            adj_ok(adj@, n_right as int),
            n_right == mr0.len(),
            mr0 == old(match_right)@,
            vis0 == old(visited)@,
            visited@.len() == n_right,
            vis0.len() == n_right,
            match_right@ == mr0,
            matching(adj@, mr0),
            forall|v: int| 0 <= v < n_right && #[trigger] mr0[v] == Some(u) ==> vis0[v],
            forall|v: int| 0 <= v < n_right && #[trigger] vis0[v] ==> visited@[v],
            unvisited(visited@) <= unvisited(vis0),
            k <= adj@[u as int]@.len(),
            forall|j: int| 0 <= j < k ==> visited@[#[trigger] adj@[u as int]@[j] as int],
            forall|v: int|
                0 <= v < n_right && #[trigger] visited@[v] && !vis0[v] ==> mr0[v] is Some && all_visited(
                    adj@,
                    visited@,
                    mr0[v]->0 as int,
                ),
        decreases adj@[u as int]@.len() - k,
    {
        let v = adj[u][k];
        if !visited[v] {
            proof {
                lemma_unvisited_set(visited@, v as int);
            }
            let ghost vis_b = visited@;
            visited.set(v, true);
            match match_right[v] {
                None => {
                    let ghost mr_b = match_right@;
                    match_right.set(v, Some(u));
                    proof {
                        assert(mr0[v as int] is None);
                        assert(match_right@ == mr0.update(v as int, Some(u)));
                        assert forall|x: int| 0 <= x < adj@.len() implies #[trigger] owners(match_right@, x) == owners(mr0, x) + if x == u { 1int } else { 0int } by {
                            lemma_owners_update(mr0, v as int, Some(u), x);
                            assert((x as usize) as int == x);
                            assert((Some(u) == Some(x as usize)) == (x == u));
                        }
                        assert(edge(adj@, u as int, v as int));
                    }
                    return true;
                },
                Some(w) => {
                    proof {
                        assert(w != u);
                        assert forall|z: int| 0 <= z < n_right && #[trigger] mr0[z] == Some(w) implies visited@[z] by {
                            if z != v {
                                if z < v {
                                    lemma_owners_two(mr0, z, v as int, w as int);
                                } else {
                                    lemma_owners_two(mr0, v as int, z, w as int);
                                }
                            }
                        }
                    }
                    let ghost vis_mid = visited@;
                    if augment(w, adj, match_right, visited) {
                        let ghost mr_mid = match_right@;
                        match_right.set(v, Some(u));
                        proof {
                            assert(mr_mid[v as int] == Some(w));
                            assert(match_right@ == mr_mid.update(v as int, Some(u)));
                            assert forall|x: int| 0 <= x < adj@.len() implies #[trigger] owners(match_right@, x) == owners(mr0, x) + if x == u { 1int } else { 0int } by {
                                lemma_owners_update(mr_mid, v as int, Some(u), x);
                                assert(owners(mr_mid, x) == owners(mr0, x) + if x == w { 1int } else { 0int });
                                assert((x as usize) as int == x);
                                assert((Some(u) == Some(x as usize)) == (x == u));
                                assert((Some(w) == Some(x as usize)) == (x == w));
                            }
                            assert(edge(adj@, u as int, v as int));
                            assert forall|z: int| 0 <= z < n_right && vis0[z] implies #[trigger] match_right@[z] == mr0[z] by {
                                assert(vis_mid[z]);
                            }
                            assert forall|z: int| 0 <= z < n_right && #[trigger] vis0[z] implies visited@[z] by {
                                assert(vis_mid[z]);
                            }
                        }
                        return true;
                    }
                    proof {
                        assert forall|z: int|
                            0 <= z < n_right && #[trigger] visited@[z] && !vis0[z] implies mr0[z] is Some && all_visited(
                                adj@,
                                visited@,
                                mr0[z]->0 as int,
                            ) by {
                            if vis_mid[z] {
                                if z != v {
                                    assert(vis_b[z]);
                                    let x = mr0[z]->0 as int;
                                    assert(all_visited(adj@, vis_b, x));
                                    assert forall|j: int| 0 <= j < adj@[x]@.len() implies visited@[#[trigger] adj@[x]@[j] as int] by {
                                        let c = adj@[x]@[j] as int;
                                        assert(vis_b[c]);
                                        assert(vis_mid[c]);
                                    }
                                }
                            }
                        }
                        assert forall|j: int| 0 <= j < k + 1 implies visited@[#[trigger] adj@[u as int]@[j] as int] by {
                            let c = adj@[u as int]@[j] as int;
                            if j < k {
                                assert(vis_b[c]);
                            }
                            assert(vis_mid[c]);
                        }
                        assert forall|z: int| 0 <= z < n_right && #[trigger] vis0[z] implies visited@[z] by {
                            assert(vis_mid[z]);
                        }
                        lemma_unvisited_mono(vis_mid, visited@);
                    }
                },
            }
        }
        k += 1;
    }
    false
}

/// A failed search from an unmatched left vertex proves that no matching
/// covers every left vertex: the search found more left vertices than right
/// vertices they can use (a violation of Hall's condition).
proof fn lemma_hall_violation(adj: Seq<Vec<usize>>, n_right: int, mr: Seq<Option<usize>>, visited: Seq<bool>, u: int)
    requires
        0 <= u < adj.len(),
        mr.len() == n_right,
        visited.len() == n_right,
        matching(adj, mr),
        owners(mr, u) == 0,
        all_visited(adj, visited, u),
        forall|v: int| 0 <= v < n_right && #[trigger] visited[v] ==> mr[v] is Some && all_visited(adj, visited, mr[v]->0 as int),
    ensures
        forall|a: Seq<int>| !#[trigger] perfect(adj, n_right, a),
{
    broadcast use vstd::set::group_set_axioms;

    assert forall|a: Seq<int>| !#[trigger] perfect(adj, n_right, a) by {
        if perfect(adj, n_right, a) {
            let vs = Set::new(|v: int| 0 <= v < n_right && visited[v]);
            let holder = |v: int| mr[v]->0 as int;
            let held = vs.map(holder);
            let left = held.insert(u);
            vstd::set_lib::lemma_int_range(0, n_right);
            assert(vs.subset_of(vstd::set_lib::set_int_range(0, n_right)));
            vstd::set_lib::lemma_len_subset(vs, vstd::set_lib::set_int_range(0, n_right));
            assert(vstd::relations::injective_on(holder, vs)) by {
                assert forall|v: int, w: int| vs.contains(v) && vs.contains(w) && #[trigger] holder(v) == #[trigger] holder(w) implies v == w by {
                    if v != w {
                        let x = mr[v]->0 as int;
                        if v < w {
                            lemma_owners_two(mr, v, w, x);
                        } else {
                            lemma_owners_two(mr, w, v, x);
                        }
                    }
                }
            }
            vstd::set_lib::lemma_map_size(vs, held, holder);
            assert(!held.contains(u)) by {
                if held.contains(u) {
                    let v = choose|v: int| vs.contains(v) && holder(v) == u;
                    lemma_owners_pos(mr, v, u);
                }
            }
            assert(left.len() == vs.len() + 1);
            // Every left vertex found uses a visited right vertex under `a`.
            let assign = |x: int| a[x];
            let image = left.map(assign);
            assert(image.subset_of(vs)) by {
                assert forall|y: int| image.contains(y) implies vs.contains(y) by {
                    let x = choose|x: int| left.contains(x) && assign(x) == y;
                    let k = choose|k: int| 0 <= k < adj[x]@.len() && adj[x]@[k] == a[x];
                    if x != u {
                        let v = choose|v: int| vs.contains(v) && holder(v) == x;
                        assert(all_visited(adj, visited, x));
                    }
                    assert(visited[adj[x]@[k] as int]);
                }
            }
            assert(left.finite());
            assert(vstd::relations::injective_on(assign, left)) by {
                assert forall|x: int, z: int| left.contains(x) && left.contains(z) && #[trigger] assign(x) == #[trigger] assign(z) implies x == z by {
                    if x != z {
                        assert(0 <= x < adj.len()) by {
                            if x != u {
                                let v = choose|v: int| vs.contains(v) && holder(v) == x;
                            }
                        }
                        assert(0 <= z < adj.len()) by {
                            if z != u {
                                let v = choose|v: int| vs.contains(v) && holder(v) == z;
                            }
                        }
                        assert(a[x] != a[z]);
                    }
                }
            }
            vstd::set_lib::lemma_map_size(left, image, assign);
            vstd::set_lib::lemma_len_subset(image, vs);
            assert(false);
        }
    }
}

/// How many right vertices `mr` gives to the left vertices below `k`.
spec fn owned_total(mr: Seq<Option<usize>>, k: int) -> nat
    decreases k,
{
    if k <= 0 {
        0
    } else {
        owned_total(mr, k - 1) + owners(mr, k - 1)
    }
}

/// The right vertex last in `mr` counts for its owner when that is below `k`.
proof fn lemma_total_drop(mr: Seq<Option<usize>>, k: int)
    requires
        mr.len() > 0,
        k <= usize::MAX,
    ensures
        owned_total(mr, k) == owned_total(mr.drop_last(), k) + if mr.last() is Some && (mr.last()->0 as int) < k
            && k > 0 {
            1nat
        } else {
            0nat
        },
    decreases k,
{
    if k > 0 {
        lemma_total_drop(mr, k - 1);
        assert(owners(mr, k - 1) == owners(mr.drop_last(), k - 1) + if mr.last() == Some((k - 1) as usize) {
            1nat
        } else {
            0nat
        });
        if mr.last() is Some && mr.last()->0 as int == k - 1 {
            assert(mr.last() == Some((k - 1) as usize));
        }
    }
}

/// The right vertices given to the left vertices below `k` are at most all
/// right vertices.
proof fn lemma_total_le(mr: Seq<Option<usize>>, k: int)
    requires
        k <= usize::MAX,
    ensures
        owned_total(mr, k) <= mr.len(),
    decreases mr.len(),
{
    if mr.len() == 0 {
        lemma_total_empty(mr, k);
    } else {
        lemma_total_drop(mr, k);
        lemma_total_le(mr.drop_last(), k);
    }
}

proof fn lemma_total_empty(mr: Seq<Option<usize>>, k: int)
    requires
        mr.len() == 0,
    ensures
        owned_total(mr, k) == 0,
    decreases k,
{
    if k > 0 {
        lemma_total_empty(mr, k - 1);
    }
}

/// Raising the owners of `u` by one raises the total below `k` by one when
/// `u` is below `k`.
proof fn lemma_total_add(a: Seq<Option<usize>>, b: Seq<Option<usize>>, u: int, k: int, n: int)
    requires
        0 <= k <= n,
        forall|x: int| 0 <= x < n ==> #[trigger] owners(b, x) == owners(a, x) + if x == u { 1int } else { 0int },
    ensures
        owned_total(b, k) == owned_total(a, k) + if 0 <= u < k { 1int } else { 0int },
    decreases k,
{
    if k > 0 {
        lemma_total_add(a, b, u, k - 1, n);
        assert(owners(b, k - 1) == owners(a, k - 1) + if k - 1 == u { 1int } else { 0int });
    }
}

/// With no right vertex given, the total is zero.
proof fn lemma_total_zero(mr: Seq<Option<usize>>, k: int)
    requires
        forall|x: int| #[trigger] owners(mr, x) == 0,
    ensures
        owned_total(mr, k) == 0,
    decreases k,
{
    if k > 0 {
        lemma_total_zero(mr, k - 1);
    }
}

/// The largest matching found by augmenting from each left vertex in turn:
/// its size is at most the number of right vertices, and equals the number
/// of left vertices exactly when a matching covering all of them exists.
fn max_bipartite_matching(adj: &Vec<Vec<usize>>, n_right: usize) -> (result: usize)
    requires
        adj_ok(adj@, n_right as int),
    ensures
        result <= adj@.len(),
        result <= n_right,
        result == adj@.len() <==> exists|a: Seq<int>| #[trigger] perfect(adj@, n_right as int, a),
{
    let n_left = adj.len();
    let mut match_right: Vec<Option<usize>> = vec![None; n_right];
    let mut result: usize = 0;
    let ghost mut failed = false;
    proof {
        assert forall|x: int| #[trigger] owners(match_right@, x) == 0 by {
            lemma_owners_zero(match_right@, x);
        }
    }
    proof {
        lemma_total_zero(match_right@, n_left as int);
    }
    let mut u: usize = 0;
    while u < n_left
        invariant
            n_left == adj@.len(),
            adj@.len() <= usize::MAX,
            adj_ok(adj@, n_right as int),
            match_right@.len() == n_right,
            u <= n_left,
            matching(adj@, match_right@),
            forall|x: int| u <= x < n_left ==> #[trigger] owners(match_right@, x) == 0,
            !failed ==> result == u && forall|x: int| 0 <= x < u ==> #[trigger] owners(match_right@, x) == 1,
            failed ==> result < u && forall|a: Seq<int>| !#[trigger] perfect(adj@, n_right as int, a),
            result == owned_total(match_right@, n_left as int),
        decreases n_left - u,
    {
        let mut visited: Vec<bool> = vec![false; n_right];
        proof {
            assert forall|v: int| 0 <= v < n_right && #[trigger] match_right@[v] == Some(u) implies visited@[v] by {
                lemma_owners_pos(match_right@, v, u as int);
            }
        }
        let ghost mr_b = match_right@;
        let ghost vis_b = visited@;
        if augment(u, adj, &mut match_right, &mut visited) {
            proof {
                lemma_total_add(mr_b, match_right@, u as int, n_left as int, n_left as int);
                lemma_total_le(match_right@, n_left as int);
            }
            result += 1;
            proof {
                assert forall|x: int| 0 <= x < adj@.len() implies #[trigger] owners(match_right@, x) <= 1 by {
                    assert(owners(match_right@, x) == owners(mr_b, x) + if x == u { 1int } else { 0int });
                }
                assert forall|x: int| u + 1 <= x < n_left implies #[trigger] owners(match_right@, x) == 0 by {
                    assert(owners(match_right@, x) == owners(mr_b, x) + if x == u { 1int } else { 0int });
                }
                if !failed {
                    assert forall|x: int| 0 <= x < u + 1 implies #[trigger] owners(match_right@, x) == 1 by {
                        assert(owners(match_right@, x) == owners(mr_b, x) + if x == u { 1int } else { 0int });
                    }
                }
            }
        } else {
            proof {
                assert forall|v: int| 0 <= v < n_right && #[trigger] visited@[v] implies match_right@[v] is Some && all_visited(
                    adj@,
                    visited@,
                    match_right@[v]->0 as int,
                ) by {
                    assert(!vis_b[v]);
                }
                lemma_hall_violation(adj@, n_right as int, match_right@, visited@, u as int);
                failed = true;
            }
        }
        u += 1;
    }
    proof {
        lemma_total_le(match_right@, n_left as int);
        if !failed {
            let a = Seq::new(n_left as nat, |x: int| choose|v: int| 0 <= v < n_right && match_right@[v] == Some(x as usize));
            assert forall|x: int| 0 <= x < n_left implies 0 <= #[trigger] a[x] < n_right && match_right@[a[x]] == Some(x as usize) by {
                lemma_owners_witness(match_right@, x);
            }
            assert(perfect(adj@, n_right as int, a)) by {
                assert forall|x: int| 0 <= x < a.len() implies 0 <= #[trigger] a[x] < n_right && edge(adj@, x, a[x]) by {
                    assert(match_right@[a[x]] is Some);
                }
                assert forall|x: int, z: int| 0 <= x < a.len() && 0 <= z < a.len() && x != z implies #[trigger] a[x] != #[trigger] a[z] by {
                    assert(match_right@[a[x]] == Some(x as usize));
                    assert(match_right@[a[z]] == Some(z as usize));
                }
            }
        }
    }
    result
}

proof fn lemma_owners_zero(mr: Seq<Option<usize>>, x: int)
    requires
        forall|v: int| 0 <= v < mr.len() ==> mr[v] is None,
    ensures
        owners(mr, x) == 0,
    decreases mr.len(),
{
    if mr.len() > 0 {
        lemma_owners_zero(mr.drop_last(), x);
    }
}


/// Box `i` may end on goal `g`: the labels agree and pushes can bring a box
/// from its cell onto the goal.
pub open spec fn may_take(cb: &CompiledBoard, boxes: Seq<(u16, u8)>, i: int, g: int) -> bool {
    &&& boxes[i].1 == cb.goal_cells@[g].1.0
    &&& cb.push_dists(g)[boxes[i].0 as int] != INVALID_CELL
}

/// `a` sends every box to a goal of its own that it may take.
pub open spec fn commitment(cb: &CompiledBoard, boxes: Seq<(u16, u8)>, a: Seq<int>) -> bool {
    &&& a.len() == boxes.len()
    &&& forall|i: int| 0 <= i < a.len() ==> 0 <= #[trigger] a[i] < cb.goal_cells@.len() && may_take(cb, boxes, i, a[i])
    &&& forall|i: int, j: int| 0 <= i < a.len() && 0 <= j < a.len() && i != j ==> #[trigger] a[i] != #[trigger] a[j]
}

/// No assignment sends every box to a goal of its own that it may take.
pub open spec fn uncommittable(cb: &CompiledBoard, boxes: Seq<(u16, u8)>) -> bool {
    !exists|a: Seq<int>| #[trigger] commitment(cb, boxes, a)
}

/// Whether no assignment sends every box to a goal of its own that it may
/// take: a box with no such goal at all, or no matching for all boxes.
pub fn is_goal_commitment_deadlock(cb: &CompiledBoard, box_cells: &[(u16, u8)]) -> (b: bool)
    requires
        cb.wf(),
        forall|i: int| 0 <= i < box_cells@.len() ==> (#[trigger] box_cells@[i]).0 < cb.cell_count,
    ensures
        b == uncommittable(cb, box_cells@),
{
    let ghost boxes = box_cells@;
    let n_boxes = box_cells.len();
    let n_goals = cb.goal_cells.len();
    if n_boxes == 0 || n_goals == 0 {
        proof {
            if n_boxes == 0 {
                assert(commitment(cb, boxes, Seq::<int>::empty()));
            } else {
                assert forall|a: Seq<int>| !#[trigger] commitment(cb, boxes, a) by {
                    if commitment(cb, boxes, a) {
                        assert(a.len() > 0);
                        assert(cb.goal_cells@.len() == 0);
                        assert(0 <= a[0] < cb.goal_cells@.len());
                    }
                }
            }
        }
        return n_boxes > 0;
    }
    let mut adj: Vec<Vec<usize>> = Vec::with_capacity(n_boxes);
    let mut i: usize = 0;
    while i < n_boxes
        invariant
            cb.wf(),
            boxes == box_cells@,
            n_boxes == boxes.len(),
            n_goals == cb.goal_cells@.len(),
            forall|k: int| 0 <= k < boxes.len() ==> (#[trigger] boxes[k]).0 < cb.cell_count,
            i <= n_boxes,
            adj@.len() == i,
            adj_ok(adj@, n_goals as int),
            forall|u: int, g: int|
                0 <= u < i && 0 <= g < n_goals ==> (#[trigger] edge(adj@, u, g) <==> may_take(cb, boxes, u, g)),
        decreases n_boxes - i,
    {
        let (box_cell, box_label) = box_cells[i];
        let mut reachable_goals: Vec<usize> = Vec::new();
        let mut gi: usize = 0;
        while gi < n_goals
            invariant
                cb.wf(),
                boxes == box_cells@,
                n_goals == cb.goal_cells@.len(),
                i < boxes.len(),
                box_cell == boxes[i as int].0,
                box_label == boxes[i as int].1,
                box_cell < cb.cell_count,
                gi <= n_goals,
                forall|k: int| 0 <= k < reachable_goals@.len() ==> (#[trigger] reachable_goals@[k]) < gi && may_take(
                    cb,
                    boxes,
                    i as int,
                    reachable_goals@[k] as int,
                ),
                forall|g: int| 0 <= g < gi && may_take(cb, boxes, i as int, g) ==> exists|k: int|
                    0 <= k < reachable_goals@.len() && #[trigger] reachable_goals@[k] == g,
            decreases n_goals - gi,
        {
            let (_, goal_label) = cb.goal_cells[gi];
            let ghost rg_b = reachable_goals@;
            if box_label == goal_label.0 {
                let dist = cb.reverse_push_distance(gi, box_cell);
                if dist < 65535 {
                    reachable_goals.push(gi);
                    proof {
                        assert(reachable_goals@[reachable_goals@.len() - 1] == gi);
                    }
                }
            }
            proof {
                assert forall|g: int| 0 <= g < gi + 1 && may_take(cb, boxes, i as int, g) implies exists|k: int|
                    0 <= k < reachable_goals@.len() && #[trigger] reachable_goals@[k] == g by {
                    if g == gi {
                        assert(cb.push_dists(gi as int)[box_cell as int] != INVALID_CELL);
                        assert(reachable_goals@[reachable_goals@.len() - 1] == gi);
                    } else {
                        let k = choose|k: int| 0 <= k < rg_b.len() && #[trigger] rg_b[k] == g;
                        assert(reachable_goals@[k] == rg_b[k]);
                    }
                }
                assert forall|k: int| 0 <= k < reachable_goals@.len() implies (#[trigger] reachable_goals@[k]) < gi + 1 && may_take(
                    cb,
                    boxes,
                    i as int,
                    reachable_goals@[k] as int,
                ) by {
                    if k < rg_b.len() {
                        assert(reachable_goals@[k] == rg_b[k]);
                    }
                }
            }
            gi += 1;
        }
        if reachable_goals.len() == 0 {
            proof {
                assert forall|a: Seq<int>| !#[trigger] commitment(cb, boxes, a) by {
                    if commitment(cb, boxes, a) {
                        assert(may_take(cb, boxes, i as int, a[i as int]));
                    }
                }
            }
            return true;
        }
        let ghost adj_b = adj@;
        let ghost rg = reachable_goals@;
        adj.push(reachable_goals);
        proof {
            assert forall|u: int, g: int|
                0 <= u < i + 1 && 0 <= g < n_goals implies (#[trigger] edge(adj@, u, g) <==> may_take(cb, boxes, u, g)) by {
                if u < i {
                    assert(adj@[u] == adj_b[u]);
                    assert(edge(adj_b, u, g) == edge(adj@, u, g));
                } else {
                    assert(adj@[u]@ == rg);
                    if edge(adj@, u, g) {
                        let k = choose|k: int| 0 <= k < adj@[u]@.len() && adj@[u]@[k] == g;
                        assert(rg[k] == g);
                    }
                    if may_take(cb, boxes, u, g) {
                        let k = choose|k: int| 0 <= k < rg.len() && #[trigger] rg[k] == g;
                        assert(adj@[u]@[k] == g);
                    }
                }
            }
            assert forall|u: int, k: int| 0 <= u < adj@.len() && 0 <= k < adj@[u]@.len() implies #[trigger] adj@[u]@[k] < n_goals by {
                if u < i {
                    assert(adj@[u] == adj_b[u]);
                } else {
                    assert(adj@[u]@ == rg);
                }
            }
        }
        i += 1;
    }
    let matching = max_bipartite_matching(&adj, n_goals);
    proof {
        assert forall|a: Seq<int>| #[trigger] commitment(cb, boxes, a) implies perfect(adj@, n_goals as int, a) by {
            assert forall|u: int| 0 <= u < a.len() implies 0 <= #[trigger] a[u] < n_goals && edge(adj@, u, a[u]) by {}
        }
        assert forall|a: Seq<int>| #[trigger] perfect(adj@, n_goals as int, a) implies commitment(cb, boxes, a) by {
            assert forall|u: int| 0 <= u < a.len() implies 0 <= #[trigger] a[u] < cb.goal_cells@.len() && may_take(cb, boxes, u, a[u]) by {
                assert(edge(adj@, u, a[u]));
            }
        }
    }
    matching < n_boxes
}

} // verus!
