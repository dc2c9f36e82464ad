use vstd::prelude::*;

verus! {

// Paths in a directed graph on integer nodes, given by its step relation, and
// the facts that breadth-first searches rest on.

/// Step `i` of the sequence `s` is an edge of the graph.
pub open spec fn link(step: spec_fn(int, int) -> bool, s: Seq<int>, i: int) -> bool {
    step(s[i], s[i + 1])
}

/// `s` is a path of `k` steps from `a` to `b`.
pub open spec fn path_of(step: spec_fn(int, int) -> bool, s: Seq<int>, a: int, b: int, k: nat) -> bool {
    &&& s.len() == k + 1
    &&& s[0] == a
    &&& s[k as int] == b
    &&& forall|i: int| 0 <= i < k ==> #[trigger] link(step, s, i)
}

/// Some path of exactly `k` steps leads from `a` to `b`.
pub open spec fn reaches_in(step: spec_fn(int, int) -> bool, a: int, b: int, k: nat) -> bool {
    exists|s: Seq<int>| #[trigger] path_of(step, s, a, b, k)
}

/// Some path leads from `a` to `b`.
pub open spec fn reachable(step: spec_fn(int, int) -> bool, a: int, b: int) -> bool {
    exists|k: nat| #[trigger] reaches_in(step, a, b, k)
}

/// `dist` holds the length of a shortest path from `src` to every node below
/// `n`, and `none` where no path exists.
pub open spec fn shortest(step: spec_fn(int, int) -> bool, src: int, dist: Seq<u16>, n: int, none: int) -> bool {
    forall|x: int|
        0 <= x < n ==> {
            &&& (#[trigger] dist[x] == none <==> !reachable(step, src, x))
            &&& dist[x] != none ==> reaches_in(step, src, x, dist[x] as nat) && forall|k: nat|
                k < dist[x] ==> !#[trigger] reaches_in(step, src, x, k)
        }
}

/// The length of a shortest path from `a` to `b`, where one exists.
pub open spec fn least_hops(step: spec_fn(int, int) -> bool, a: int, b: int) -> nat {
    choose|k: nat| #[trigger] reaches_in(step, a, b, k) && forall|j: nat| j < k ==> !#[trigger] reaches_in(step, a, b, j)
}

/// A path of `k` steps with none shorter has the least length.
pub proof fn lemma_least_hops(step: spec_fn(int, int) -> bool, a: int, b: int, k: nat)
    requires
        reaches_in(step, a, b, k),
        forall|j: nat| j < k ==> !#[trigger] reaches_in(step, a, b, j),
    ensures
        least_hops(step, a, b) == k,
{
    let m = least_hops(step, a, b);
    assert(reaches_in(step, a, b, m) && forall|j: nat| j < m ==> !#[trigger] reaches_in(step, a, b, j));
    if m < k {
        assert(!reaches_in(step, a, b, m));
    }
    if k < m {
        assert(!reaches_in(step, a, b, k));
    }
}

/// A node reaches itself in no steps.
pub proof fn lemma_reaches_self(step: spec_fn(int, int) -> bool, a: int)
    ensures
        reaches_in(step, a, a, 0),
{
    assert(path_of(step, seq![a], a, a, 0));
}

/// A path extends by one edge.
pub proof fn lemma_reaches_step(step: spec_fn(int, int) -> bool, a: int, b: int, c: int, k: nat)
    requires
        reaches_in(step, a, b, k),
        step(b, c),
    ensures
        reaches_in(step, a, c, k + 1),
{
    let s = choose|s: Seq<int>| #[trigger] path_of(step, s, a, b, k);
    let t = s.push(c);
    assert forall|i: int| 0 <= i < k + 1 implies #[trigger] link(step, t, i) by {
        if i < k {
            assert(link(step, s, i));
        }
    }
    assert(path_of(step, t, a, c, k + 1));
}

/// A set that holds `a` and is closed under the edges, with a potential that
/// grows by at most one along each edge and is 0 at `a`, holds every node a
/// path of `k` steps reaches from `a`, with potential at most `k`.
pub proof fn lemma_closed_bound(
    step: spec_fn(int, int) -> bool,
    inside: spec_fn(int) -> bool,
    pot: spec_fn(int) -> int,
    a: int,
    b: int,
    k: nat,
)
    requires
        inside(a),
        pot(a) <= 0,
        forall|x: int, y: int| inside(x) && #[trigger] step(x, y) ==> inside(y) && pot(y) <= pot(x) + 1,
        reaches_in(step, a, b, k),
    ensures
        inside(b),
        pot(b) <= k,
    decreases k,
{
    let s = choose|s: Seq<int>| #[trigger] path_of(step, s, a, b, k);
    if k > 0 {
        let t = s.take(k as int);
        let m = s[k - 1];
        assert forall|i: int| 0 <= i < k - 1 implies #[trigger] link(step, t, i) by {
            assert(link(step, s, i));
        }
        assert(path_of(step, t, a, m, (k - 1) as nat));
        lemma_closed_bound(step, inside, pot, a, m, (k - 1) as nat);
        assert(link(step, s, k - 1));
    }
}

/// A path of `k` steps from a node inside a set closed under the edges stays
/// inside it.
pub proof fn lemma_closed_reach(step: spec_fn(int, int) -> bool, inside: spec_fn(int) -> bool, a: int, b: int)
    requires
        inside(a),
        forall|x: int, y: int| inside(x) && #[trigger] step(x, y) ==> inside(y),
        reachable(step, a, b),
    ensures
        inside(b),
{
    let k = choose|k: nat| #[trigger] reaches_in(step, a, b, k);
    lemma_closed_bound(step, inside, |x: int| 0int, a, b, k);
}

/// Paths compose: a path from `a` to `b` followed by one from `b` to `c`.
pub proof fn lemma_reach_trans(step: spec_fn(int, int) -> bool, a: int, b: int, c: int, j: nat, k: nat)
    requires
        reaches_in(step, a, b, j),
        reaches_in(step, b, c, k),
    ensures
        reaches_in(step, a, c, j + k),
    decreases k,
{
    if k == 0 {
        let s = choose|s: Seq<int>| #[trigger] path_of(step, s, b, c, k);
        assert(s[0] == c);
    } else {
        let s = choose|s: Seq<int>| #[trigger] path_of(step, s, b, c, k);
        let t = s.take(k as int);
        let m = s[k - 1];
        assert forall|i: int| 0 <= i < k - 1 implies #[trigger] link(step, t, i) by {
            assert(link(step, s, i));
        }
        assert(path_of(step, t, b, m, (k - 1) as nat));
        lemma_reach_trans(step, a, b, m, j, (k - 1) as nat);
        assert(link(step, s, k - 1));
        lemma_reaches_step(step, a, m, c, (j + k - 1) as nat);
    }
}

/// In a graph whose edges all go both ways, a path can be walked back.
pub proof fn lemma_reach_back(step: spec_fn(int, int) -> bool, a: int, b: int, k: nat)
    requires
        forall|x: int, y: int| #[trigger] step(x, y) ==> step(y, x),
        reaches_in(step, a, b, k),
    ensures
        reaches_in(step, b, a, k),
    decreases k,
{
    let s = choose|s: Seq<int>| #[trigger] path_of(step, s, a, b, k);
    if k == 0 {
        assert(s[0] == b);
        lemma_reaches_self(step, b);
    } else {
        let t = s.take(k as int);
        let m = s[k - 1];
        assert forall|i: int| 0 <= i < k - 1 implies #[trigger] link(step, t, i) by {
            assert(link(step, s, i));
        }
        assert(path_of(step, t, a, m, (k - 1) as nat));
        lemma_reach_back(step, a, m, (k - 1) as nat);
        assert(link(step, s, k - 1));
        assert(step(b, m));
        lemma_reaches_self(step, b);
        lemma_reaches_step(step, b, b, m, 0);
        lemma_reach_trans(step, b, m, a, 1, (k - 1) as nat);
    }
}

/// Reachability is transitive.
pub proof fn lemma_reachable_trans(step: spec_fn(int, int) -> bool, a: int, b: int, c: int)
    requires
        reachable(step, a, b),
        reachable(step, b, c),
    ensures
        reachable(step, a, c),
{
    let j = choose|j: nat| #[trigger] reaches_in(step, a, b, j);
    let k = choose|k: nat| #[trigger] reaches_in(step, b, c, k);
    lemma_reach_trans(step, a, b, c, j, k);
}

/// In a graph whose edges all go both ways, reachability is symmetric.
pub proof fn lemma_reachable_back(step: spec_fn(int, int) -> bool, a: int, b: int)
    requires
        forall|x: int, y: int| #[trigger] step(x, y) ==> step(y, x),
        reachable(step, a, b),
    ensures
        reachable(step, b, a),
{
    let k = choose|k: nat| #[trigger] reaches_in(step, a, b, k);
    lemma_reach_back(step, a, b, k);
}

} // verus!
