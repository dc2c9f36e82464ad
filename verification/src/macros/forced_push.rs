use vstd::prelude::*;

use crate::compiled_board::CompiledBoard;
use crate::counters::SearchCounters;
use crate::deadlock::DeadlockChecker;
use crate::dense_state::{lemma_pairs_sorted_cells, solved, state_ok, DenseState};
use crate::position::{spec_index, Direction};
use crate::search::successors::{
    generate_successors, legal_push, legal_pushes, lemma_legal_pushes_len, lemma_pushed, moved_boxes, pushed,
    PushSuccessor,
};

verus! {

broadcast use vstd::std_specs::vec::group_vec_axioms;

/// The longest chain of forced pushes that is followed.
pub const MAX_CHAIN_DEPTH: u32 = 50;

/// The legal pushes from `s` after which the quick checks of `chk` find no
/// deadlock, in the order they are generated.
pub open spec fn live_pushes(cb: &CompiledBoard, chk: &DeadlockChecker, s: DenseState) -> Seq<(int, int)> {
    legal_pushes(cb, s, 4 * s.box_cells@.len() as int).filter(
        |c: (int, int)| !chk.quick_detects(cb, moved_boxes(cb, s, c.0, c.1)),
    )
}

/// The number of successors generated from `s`.
pub open spec fn successor_count(cb: &CompiledBoard, s: DenseState) -> int {
    legal_pushes(cb, s, 4 * s.box_cells@.len() as int).len() as int
}

/// `states` are the states along the forced pushes `pushes`: from each state
/// but the last exactly one push survives the quick checks, and it leads to
/// the next state; no state between the first and the last is solved.
pub open spec fn forced_chain(
    cb: &CompiledBoard,
    chk: &DeadlockChecker,
    states: Seq<DenseState>,
    pushes: Seq<(usize, Direction)>,
) -> bool {
    &&& states.len() == pushes.len() + 1
    &&& forall|i: int|
        0 <= i < pushes.len() ==> live_pushes(cb, chk, #[trigger] states[i]) == seq![
            (pushes[i].0 as int, spec_index(pushes[i].1)),
        ]
    &&& forall|i: int|
        0 <= i < pushes.len() ==> pushed(cb, #[trigger] states[i], pushes[i].0 as int, spec_index(pushes[i].1), states[i + 1])
    &&& forall|i: int| 1 <= i < pushes.len() ==> !solved(cb, (#[trigger] states[i]).box_cells@)
}

/// A chain of `k` forced pushes stops at `s`: it is `MAX_CHAIN_DEPTH` long,
/// `s` is solved, or not exactly one push from `s` survives.
pub open spec fn chain_ends(cb: &CompiledBoard, chk: &DeadlockChecker, s: DenseState, k: int) -> bool {
    k >= MAX_CHAIN_DEPTH || solved(cb, s.box_cells@) || live_pushes(cb, chk, s).len() != 1
}

/// The successors generated from the states `1..j` of a chain.
pub open spec fn generated_before(cb: &CompiledBoard, states: Seq<DenseState>, j: int) -> int
    decreases j,
{
    if j <= 1 {
        0
    } else {
        generated_before(cb, states, j - 1) + successor_count(cb, states[j - 1])
    }
}

/// The successors generated along a chain: those of every state after the
/// first that the chain went on from, and those of the last state unless the
/// depth limit stopped the chain there or the last state is solved.
pub open spec fn chain_generated(cb: &CompiledBoard, states: Seq<DenseState>) -> int {
    let k = states.len() - 1;
    generated_before(cb, states, k) + if k < MAX_CHAIN_DEPTH && !solved(cb, states[k].box_cells@) {
        successor_count(cb, states[k])
    } else {
        0
    }
}

/// The result of a chain of forced pushes: the state reached and the pushes
/// that led there, as (box index, direction).
pub struct ForcedPushResult {
    pub final_state: DenseState,
    pub pushes: Vec<(usize, Direction)>,
}

proof fn lemma_filter_push<A>(s: Seq<A>, x: A, p: spec_fn(A) -> bool)
    ensures
        s.push(x).filter(p) == if p(x) {
            s.filter(p).push(x)
        } else {
            s.filter(p)
        },
{
    reveal(Seq::filter);
    assert(s.push(x).drop_last() =~= s);
}

proof fn lemma_legal_pushes_members(cb: &CompiledBoard, s: DenseState, k: int)
    requires
        k >= 0,
    ensures
        forall|i: int|
            0 <= i < legal_pushes(cb, s, k).len() ==> {
                let c = #[trigger] legal_pushes(cb, s, k)[i];
                &&& 0 <= c.0
                &&& 0 <= c.1 < 4
                &&& 4 * c.0 + c.1 < k
                &&& legal_push(cb, s, c.0, c.1)
            },
    decreases k,
{
    if k > 0 {
        lemma_legal_pushes_members(cb, s, k - 1);
        let prev = legal_pushes(cb, s, k - 1);
        let c = ((k - 1) / 4, (k - 1) % 4);
        assert(4 * c.0 + c.1 == k - 1);
        assert forall|i: int| 0 <= i < legal_pushes(cb, s, k).len() implies {
            let e = #[trigger] legal_pushes(cb, s, k)[i];
            &&& 0 <= e.0
            &&& 0 <= e.1 < 4
            &&& 4 * e.0 + e.1 < k
            &&& legal_push(cb, s, e.0, e.1)
        } by {
            if i < prev.len() {
                assert(legal_pushes(cb, s, k)[i] == prev[i]);
            }
        }
    }
}

proof fn lemma_generated_before_push(cb: &CompiledBoard, states: Seq<DenseState>, x: DenseState, j: int)
    requires
        j <= states.len(),
    ensures
        generated_before(cb, states.push(x), j) == generated_before(cb, states, j),
    decreases j,
{
    if j > 1 {
        lemma_generated_before_push(cb, states, x, j - 1);
        assert(states.push(x)[j - 1] == states[j - 1]);
    }
}

/// A copy of a push successor.
fn copy_successor(p: &PushSuccessor) -> (q: PushSuccessor)
    ensures
        q.box_index == p.box_index,
        q.direction == p.direction,
        q.state.keeper_cell == p.state.keeper_cell,
        q.state.keeper_zone == p.state.keeper_zone,
        q.state.box_cells@ == p.state.box_cells@,
        q.state.moves == p.state.moves,
        q.state.pushes == p.state.pushes,
{
    PushSuccessor {
        state: DenseState {
            keeper_cell: p.state.keeper_cell,
            keeper_zone: p.state.keeper_zone,
            box_cells: crate::dense_state::copy_cells(&p.state.box_cells),
            moves: p.state.moves,
            pushes: p.state.pushes,
        },
        box_index: p.box_index,
        direction: p.direction,
    }
}

/// The successors of `s` that the quick checks of `chk` do not reject.
fn live_successors(cb: &CompiledBoard, chk: &DeadlockChecker, s: &DenseState, succs: &Vec<PushSuccessor>) -> (live: Vec<
    PushSuccessor,
>)
    requires
        cb.wf(),
        chk.wf(cb),
        state_ok(cb, *s),
        succs@.len() == legal_pushes(cb, *s, 4 * s.box_cells@.len() as int).len(),
        forall|i: int|
            0 <= i < succs@.len() ==> {
                let c = legal_pushes(cb, *s, 4 * s.box_cells@.len() as int)[i];
                &&& (#[trigger] succs@[i]).box_index == c.0
                &&& spec_index(succs@[i].direction) == c.1
                &&& pushed(cb, *s, c.0, c.1, succs@[i].state)
            },
    ensures
        live@.len() == live_pushes(cb, chk, *s).len(),
        forall|i: int|
            0 <= i < live@.len() ==> {
                let c = live_pushes(cb, chk, *s)[i];
                &&& (#[trigger] live@[i]).box_index == c.0
                &&& spec_index(live@[i].direction) == c.1
                &&& pushed(cb, *s, c.0, c.1, live@[i].state)
                &&& state_ok(cb, live@[i].state)
                &&& live@[i].state.box_cells@.len() == s.box_cells@.len()
            },
{
    let ghost legal = legal_pushes(cb, *s, 4 * s.box_cells@.len() as int);
    let ghost p = |c: (int, int)| !chk.quick_detects(cb, moved_boxes(cb, *s, c.0, c.1));
    proof {
        lemma_legal_pushes_members(cb, *s, 4 * s.box_cells@.len() as int);
    }
    let mut live: Vec<PushSuccessor> = Vec::new();
    let mut i: usize = 0;
    while i < succs.len()
        invariant
            cb.wf(),
            chk.wf(cb),
            state_ok(cb, *s),
            legal == legal_pushes(cb, *s, 4 * s.box_cells@.len() as int),
            p == (|c: (int, int)| !chk.quick_detects(cb, moved_boxes(cb, *s, c.0, c.1))),
            succs@.len() == legal.len(),
            forall|j: int|
                0 <= j < succs@.len() ==> {
                    let c = legal[j];
                    &&& (#[trigger] succs@[j]).box_index == c.0
                    &&& spec_index(succs@[j].direction) == c.1
                    &&& pushed(cb, *s, c.0, c.1, succs@[j].state)
                },
            forall|j: int|
                0 <= j < legal.len() ==> {
                    let c = #[trigger] legal[j];
                    &&& 0 <= c.0
                    &&& 0 <= c.1 < 4
                    &&& 4 * c.0 + c.1 < 4 * s.box_cells@.len()
                    &&& legal_push(cb, *s, c.0, c.1)
                },
            i <= succs@.len(),
            live@.len() == legal.take(i as int).filter(p).len(),
            forall|j: int|
                0 <= j < live@.len() ==> {
                    let c = legal.take(i as int).filter(p)[j];
                    &&& (#[trigger] live@[j]).box_index == c.0
                    &&& spec_index(live@[j].direction) == c.1
                    &&& pushed(cb, *s, c.0, c.1, live@[j].state)
                    &&& state_ok(cb, live@[j].state)
                    &&& live@[j].state.box_cells@.len() == s.box_cells@.len()
                },
        decreases succs@.len() - i,
    {
        let succ = &succs[i];
        let ghost c = legal[i as int];
        proof {
            lemma_pushed(cb, *s, c.0, c.1, succ.state);
            lemma_pairs_sorted_cells(succ.state.box_cells@);
            assert(legal.take(i + 1) =~= legal.take(i as int).push(c));
            lemma_filter_push(legal.take(i as int), c, p);
        }
        let stuck = chk.is_deadlocked_quick(cb, succ.state.box_cells.as_slice());
        let ghost before = live@;
        if !stuck {
            let q = copy_successor(succ);
            live.push(q);
        }
        proof {
            assert forall|j: int| 0 <= j < live@.len() implies {
                let c2 = legal.take(i + 1).filter(p)[j];
                &&& (#[trigger] live@[j]).box_index == c2.0
                &&& spec_index(live@[j].direction) == c2.1
                &&& pushed(cb, *s, c2.0, c2.1, live@[j].state)
                &&& state_ok(cb, live@[j].state)
                &&& live@[j].state.box_cells@.len() == s.box_cells@.len()
            } by {
                if j < before.len() {
                    assert(live@[j] == before[j]);
                }
            }
        }
        i += 1;
    }
    proof {
        assert(legal.take(succs@.len() as int) =~= legal);
    }
    live
}

/// When exactly one push from `state` survives the quick deadlock checks,
/// follows it, and goes on while that holds, for at most
/// `MAX_CHAIN_DEPTH` pushes and not beyond a solved state. A chain of at
/// least two pushes comes back with the state reached and the pushes made;
/// with a single push there is nothing to collapse. Counts the successors
/// generated after the first state, and the pushes of a chain that is
/// returned.
pub fn apply_forced_push(cb: &CompiledBoard, state: &DenseState, deadlocks: &DeadlockChecker, counters: &mut SearchCounters) -> (r:
    Option<ForcedPushResult>)
    requires
        cb.wf(),
        deadlocks.wf(cb),
        state_ok(cb, *state),
        state.moves + MAX_CHAIN_DEPTH <= u32::MAX,
        state.pushes + MAX_CHAIN_DEPTH <= u32::MAX,
        old(counters).generated + 4 * MAX_CHAIN_DEPTH * state.box_cells@.len() <= u64::MAX,
        old(counters).macro_forced_push + MAX_CHAIN_DEPTH <= u64::MAX,
    ensures
        live_pushes(cb, deadlocks, *state).len() != 1 ==> r.is_none() && *final(counters) == *old(counters),
        live_pushes(cb, deadlocks, *state).len() == 1 ==> exists|states: Seq<DenseState>, pushes: Seq<(usize, Direction)>|
            #![trigger forced_chain(cb, deadlocks, states, pushes)]
            {
                &&& states[0] == *state
                &&& forced_chain(cb, deadlocks, states, pushes)
                &&& 1 <= pushes.len() <= MAX_CHAIN_DEPTH
                &&& chain_ends(cb, deadlocks, states.last(), pushes.len() as int)
                &&& *final(counters) == (SearchCounters {
                    generated: (old(counters).generated + chain_generated(cb, states)) as u64,
                    macro_forced_push: (old(counters).macro_forced_push + if pushes.len() >= 2 {
                        pushes.len() as int
                    } else {
                        0
                    }) as u64,
                    ..*old(counters)
                })
                &&& r.is_some() == (pushes.len() >= 2)
                &&& (r matches Some(res) ==> res.pushes@ == pushes && res.final_state == states.last())
            },
{
    let ghost n = state.box_cells@.len();
    let succs = generate_successors(cb, state);
    let mut live = live_successors(cb, deadlocks, state, &succs);
    if live.len() != 1 {
        return None;
    }
    let ghost first = live_pushes(cb, deadlocks, *state)[0];
    let mut current = match live.pop() {
        Some(x) => x,
        None => {
            return None;
        },
    };
    proof {
        assert(live_pushes(cb, deadlocks, *state) =~= seq![first]);
    }
    let mut chain: Vec<(usize, Direction)> = Vec::new();
    chain.push((current.box_index, current.direction));
    let mut depth: u32 = 1;
    let ghost mut states: Seq<DenseState> = seq![*state, current.state];
    proof {
        assert(chain@[0] == (current.box_index, current.direction));
        assert(states[1] == current.state);
    }
    loop
        invariant_except_break
            cb.wf(),
            deadlocks.wf(cb),
            state_ok(cb, current.state),
            current.state.box_cells@.len() == n,
            n == state.box_cells@.len(),
            states[0] == *state,
            states.len() == chain@.len() + 1,
            depth == chain@.len(),
            1 <= depth <= MAX_CHAIN_DEPTH,
            forced_chain(cb, deadlocks, states, chain@),
            states.last() == current.state,
            current.state.moves == state.moves + depth,
            current.state.pushes == state.pushes + depth,
            state.moves + MAX_CHAIN_DEPTH <= u32::MAX,
            state.pushes + MAX_CHAIN_DEPTH <= u32::MAX,
            old(counters).generated + 4 * MAX_CHAIN_DEPTH * n <= u64::MAX,
            old(counters).macro_forced_push + MAX_CHAIN_DEPTH <= u64::MAX,
            0 <= generated_before(cb, states, depth as int) <= 4 * n * (depth - 1),
            *counters == (SearchCounters {
                generated: (old(counters).generated + generated_before(cb, states, depth as int)) as u64,
                macro_forced_push: (old(counters).macro_forced_push + depth - 1) as u64,
                ..*old(counters)
            }),
        ensures
            states[0] == *state,
            states.len() == chain@.len() + 1,
            depth == chain@.len(),
            1 <= depth <= MAX_CHAIN_DEPTH,
            forced_chain(cb, deadlocks, states, chain@),
            states.last() == current.state,
            chain_ends(cb, deadlocks, current.state, depth as int),
            *counters == (SearchCounters {
                generated: (old(counters).generated + chain_generated(cb, states)) as u64,
                macro_forced_push: (old(counters).macro_forced_push + depth - 1) as u64,
                ..*old(counters)
            }),
            old(counters).macro_forced_push + MAX_CHAIN_DEPTH <= u64::MAX,
        decreases MAX_CHAIN_DEPTH - depth,
    {
        if depth >= MAX_CHAIN_DEPTH {
            break;
        }
        if current.state.is_solved(cb) {
            break;
        }
        let next_succs = generate_successors(cb, &current.state);
        proof {
            lemma_legal_pushes_len(cb, current.state, 4 * n as int);
            assert(4 * n * (depth - 1) + 4 * n == 4 * n * depth) by (nonlinear_arith);
            assert(4 * n * depth <= 4 * MAX_CHAIN_DEPTH * n) by (nonlinear_arith)
                requires
                    depth <= MAX_CHAIN_DEPTH,
                    n >= 0,
            ;
        }
        counters.generated = counters.generated + next_succs.len() as u64;
        let mut next_live = live_successors(cb, deadlocks, &current.state, &next_succs);
        if next_live.len() != 1 {
            break;
        }
        let ghost c = live_pushes(cb, deadlocks, current.state)[0];
        let next = match next_live.pop() {
            Some(x) => x,
            None => {
                break;
            },
        };
        proof {
            assert(live_pushes(cb, deadlocks, current.state) =~= seq![c]);
        }
        let ghost old_states = states;
        let ghost old_chain = chain@;
        chain.push((next.box_index, next.direction));
        proof {
            states = states.push(next.state);
            lemma_generated_before_push(cb, old_states, next.state, depth as int);
            assert(states[depth as int] == current.state);
            assert(forced_chain(cb, deadlocks, states, chain@)) by {
                assert forall|i: int| 0 <= i < chain@.len() implies live_pushes(cb, deadlocks, #[trigger] states[i]) == seq![
                    (chain@[i].0 as int, spec_index(chain@[i].1)),
                ] by {
                    if i < old_chain.len() {
                        assert(states[i] == old_states[i]);
                        assert(chain@[i] == old_chain[i]);
                    }
                }
                assert forall|i: int| 0 <= i < chain@.len() implies pushed(
                    cb,
                    #[trigger] states[i],
                    chain@[i].0 as int,
                    spec_index(chain@[i].1),
                    states[i + 1],
                ) by {
                    if i < old_chain.len() {
                        assert(states[i] == old_states[i]);
                        assert(states[i + 1] == old_states[i + 1]);
                        assert(chain@[i] == old_chain[i]);
                    }
                }
                assert forall|i: int| 1 <= i < chain@.len() implies !solved(cb, (#[trigger] states[i]).box_cells@) by {
                    if i < old_chain.len() {
                        assert(states[i] == old_states[i]);
                    }
                }
            }
        }
        current = next;
        counters.macro_forced_push = counters.macro_forced_push + 1;
        depth = depth + 1;
    }
    if chain.len() <= 1 {
        proof {
            assert(forced_chain(cb, deadlocks, states, chain@));
        }
        return None;
    }
    counters.macro_forced_push = counters.macro_forced_push + 1;
    let ghost pushes = chain@;
    let r = Some(ForcedPushResult { final_state: current.state, pushes: chain });
    proof {
        assert(forced_chain(cb, deadlocks, states, pushes));
    }
    r
}

} // verus!
