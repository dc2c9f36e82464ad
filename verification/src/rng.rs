use vstd::prelude::*;

verus! {

broadcast use vstd::seq_lib::to_multiset_update;

/// The golden-ratio increment of SplitMix64.
pub open spec fn golden() -> u64 {
    0x9e3779b97f4a7c15
}

/// The state after one draw.
pub open spec fn next_state(s: u64) -> u64 {
    vstd::wrapping::u64_specs::wrapping_add(s, golden())
}

/// The SplitMix64 output function applied to a state.
pub open spec fn mix(z: u64) -> u64 {
    let z1 = vstd::wrapping::u64_specs::wrapping_mul(z ^ (z >> 30u64), 0xbf58476d1ce4e5b9);
    let z2 = vstd::wrapping::u64_specs::wrapping_mul(z1 ^ (z1 >> 27u64), 0x94d049bb133111eb);
    z2 ^ (z2 >> 31u64)
}

/// The state after `n` draws.
pub open spec fn advance(s: u64, n: nat) -> u64
    decreases n,
{
    if n == 0 {
        s
    } else {
        advance(next_state(s), (n - 1) as nat)
    }
}

/// `s` with the elements at `i` and `j` exchanged.
pub open spec fn swapped<T>(s: Seq<T>, i: int, j: int) -> Seq<T> {
    s.update(i, s[j]).update(j, s[i])
}

/// The Fisher-Yates shuffle of the first `i` elements of `s`, drawing from state `st`:
/// for `i` from the top down, the element at `i - 1` is exchanged with the one at
/// the next draw modulo `i`.
pub open spec fn fisher_yates<T>(st: u64, s: Seq<T>, i: nat) -> Seq<T>
    decreases i,
{
    if i <= 1 {
        s
    } else {
        let st2 = next_state(st);
        let j = ((mix(st2) as usize) as nat % i) as int;
        fisher_yates(st2, swapped(s, i - 1, j), (i - 1) as nat)
    }
}

/// SplitMix64: a fast, deterministic generator of pseudo-random numbers.
pub struct SplitMix64 {
    state: u64,
}

/// Exchanges two elements of a slice.
#[verifier::external_body]
fn slice_swap<T>(slice: &mut [T], i: usize, j: usize)
    requires
        i < old(slice)@.len(),
        j < old(slice)@.len(),
    ensures
        final(slice)@ == swapped(old(slice)@, i as int, j as int),
{
    slice.swap(i, j)
}

/// Exchanging two elements keeps the multiset of elements.
proof fn lemma_swap_multiset<T>(s: Seq<T>, i: int, j: int)
    requires
        0 <= i < s.len(),
        0 <= j < s.len(),
    ensures
        swapped(s, i, j).to_multiset() == s.to_multiset(),
        swapped(s, i, j).len() == s.len(),
{
    crate::sorting::lemma_swap_keeps_multiset(s, i, j);
}

/// The Fisher-Yates shuffle only permutes the elements.
pub proof fn lemma_fisher_yates_permutes<T>(st: u64, s: Seq<T>, i: nat)
    requires
        i <= s.len(),
    ensures
        fisher_yates(st, s, i).to_multiset() == s.to_multiset(),
        fisher_yates(st, s, i).len() == s.len(),
    decreases i,
{
    if i > 1 {
        let st2 = next_state(st);
        let j = ((mix(st2) as usize) as nat % i) as int;
        lemma_swap_multiset(s, i - 1, j);
        lemma_fisher_yates_permutes(st2, swapped(s, i - 1, j), (i - 1) as nat);
    }
}

impl SplitMix64 {
    /// The current state of the generator.
    pub closed spec fn state(&self) -> u64 {
        self.state
    }

    pub fn new(seed: u64) -> (r: SplitMix64)
        ensures
            r.state() == seed,
    {
        SplitMix64 { state: seed }
    }

    /// Advances the state by the golden increment and returns its mix.
    pub fn next_u64(&mut self) -> (r: u64)
        ensures
            final(self).state() == next_state(old(self).state()),
            r == mix(final(self).state()),
    {
        self.state = self.state.wrapping_add(0x9e3779b97f4a7c15);
        let mut z = self.state;
        z = (z ^ (z >> 30)).wrapping_mul(0xbf58476d1ce4e5b9);
        z = (z ^ (z >> 27)).wrapping_mul(0x94d049bb133111eb);
        z ^ (z >> 31)
    }

    /// Shuffles the slice in place (Fisher-Yates), drawing one number per
    /// element after the first.
    pub fn shuffle<T>(&mut self, slice: &mut [T])
        ensures
            final(slice)@ == fisher_yates(old(self).state(), old(slice)@, old(slice)@.len()),
            final(slice)@.to_multiset() == old(slice)@.to_multiset(),
            final(self).state() == advance(
                old(self).state(),
                if old(slice)@.len() > 0 {
                    (old(slice)@.len() - 1) as nat
                } else {
                    0
                },
            ),
    {
        let n = slice.len();
        let mut i = n;
        proof {
            lemma_fisher_yates_permutes(self.state, slice@, n as nat);
        }
        let ghost target = fisher_yates(self.state, slice@, n as nat);
        let ghost start = self.state;
        let ghost first = slice@;
        while i > 1
            invariant
                i <= n,
                i >= 1 || n == 0,
                n == slice@.len(),
                fisher_yates(self.state, slice@, i as nat) == target,
                target == fisher_yates(start, first, n as nat),
                self.state == advance(
                    start,
                    if n > 0 {
                        (n - i) as nat
                    } else {
                        0
                    },
                ),
            decreases i,
        {
            i -= 1;
            let ghost before = self.state;
            let j = (self.next_u64() as usize) % (i + 1);
            slice_swap(slice, i, j);
            proof {
                lemma_advance_step(start, (n - i - 1) as nat);
            }
        }
        proof {
            lemma_fisher_yates_permutes(start, first, n as nat);
        }
    }
}

/// One more draw advances the state once more.
pub proof fn lemma_advance_step(s: u64, n: nat)
    ensures
        advance(s, n + 1) == next_state(advance(s, n)),
    decreases n,
{
    reveal_with_fuel(advance, 2);
    if n > 0 {
        lemma_advance_step(next_state(s), (n - 1) as nat);
    }
}

/// The number drawn `n`-th (from 0) by a generator made from `seed`.
pub open spec fn nth_draw(seed: u64, n: nat) -> u64 {
    mix(advance(seed, n + 1))
}

/// The draws depend only on the seed and on how many numbers were drawn
/// before: a generator in state `advance(seed, n)` (as `new(seed)` is after
/// `n` draws) returns `nth_draw(seed, n)` next and moves to
/// `advance(seed, n + 1)`. Two generators made from the same seed therefore
/// draw the same numbers in the same order.
pub proof fn lemma_draws_follow_seed(g: SplitMix64, seed: u64, n: nat)
    requires
        g.state() == advance(seed, n),
    ensures
        mix(next_state(g.state())) == nth_draw(seed, n),
        next_state(g.state()) == advance(seed, n + 1),
{
    lemma_advance_step(seed, n);
}

} // verus!
