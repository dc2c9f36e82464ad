use vstd::prelude::*;

verus! {

broadcast use vstd::std_specs::vec::group_vec_axioms;

/// Keys of a priority queue: totally ordered by an integer rank.
pub trait QueueKey: Copy {
    spec fn rank(&self) -> int;

    fn precedes(&self, other: &Self) -> (r: bool)
        ensures
            r == (self.rank() < other.rank()),
    ;
}

impl QueueKey for i32 {
    open spec fn rank(&self) -> int {
        *self as int
    }

    fn precedes(&self, other: &Self) -> (r: bool) {
        *self < *other
    }
}

impl QueueKey for i64 {
    open spec fn rank(&self) -> int {
        *self as int
    }

    fn precedes(&self, other: &Self) -> (r: bool) {
        *self < *other
    }
}

impl QueueKey for u32 {
    open spec fn rank(&self) -> int {
        *self as int
    }

    fn precedes(&self, other: &Self) -> (r: bool) {
        *self < *other
    }
}

impl QueueKey for u64 {
    open spec fn rank(&self) -> int {
        *self as int
    }

    fn precedes(&self, other: &Self) -> (r: bool) {
        *self < *other
    }
}

impl QueueKey for usize {
    open spec fn rank(&self) -> int {
        *self as int
    }

    fn precedes(&self, other: &Self) -> (r: bool) {
        *self < *other
    }
}

/// The entries are in ascending order of key rank.
pub open spec fn sorted_by_rank<K: QueueKey, V>(s: Seq<(K, V)>) -> bool {
    forall|i: int, j: int| 0 <= i <= j < s.len() ==> (#[trigger] s[i]).0.rank() <= (#[trigger] s[j]).0.rank()
}

/// Min-priority queue: `pop` returns an entry of least key.
/// Entries with equal keys come out in the order they went in.
pub struct MinPriorityQueue<K: QueueKey, V> {
    items: Vec<(K, V)>,
}

impl<K: QueueKey, V> View for MinPriorityQueue<K, V> {
    type V = Seq<(K, V)>;

    /// The entries in the order `pop` returns them.
    closed spec fn view(&self) -> Seq<(K, V)> {
        self.items@
    }
}

impl<K: QueueKey, V> MinPriorityQueue<K, V> {
    #[verifier::type_invariant]
    closed spec fn inv(&self) -> bool {
        sorted_by_rank(self.items@)
    }

    pub fn new() -> (q: Self)
        ensures
            q@ == Seq::<(K, V)>::empty(),
    {
        MinPriorityQueue { items: Vec::new() }
    }

    pub fn with_capacity(capacity: usize) -> (q: Self)
        ensures
            q@ == Seq::<(K, V)>::empty(),
    {
        MinPriorityQueue { items: Vec::with_capacity(capacity) }
    }

    /// Adds an entry after every entry whose key is not greater.
    pub fn push(&mut self, key: K, value: V)
        ensures
            final(self)@.to_multiset() == old(self)@.to_multiset().insert((key, value)),
            final(self)@.len() == old(self)@.len() + 1,
            sorted_by_rank(old(self)@),
            sorted_by_rank(final(self)@),
            exists|p: int|
                0 <= p <= old(self)@.len() && final(self)@ == old(self)@.insert(p, (key, value))
                    && (forall|i: int| 0 <= i < p ==> (#[trigger] old(self)@[i]).0.rank() <= key.rank())
                    && (forall|i: int| p <= i < old(self)@.len() ==> key.rank() < (#[trigger] old(self)@[i]).0.rank()),
    {
        proof {
            use_type_invariant(&*self);
        }
        let ghost old_items = self.items@;
        let n = self.items.len();
        let mut p: usize = 0;
        while p < n
            invariant
                n == self.items@.len(),
                self.items@ == old_items,
                p <= n,
                forall|i: int| 0 <= i < p ==> (#[trigger] old_items[i]).0.rank() <= key.rank(),
            ensures
                p <= n,
                self.items@ == old_items,
                forall|i: int| 0 <= i < p ==> (#[trigger] old_items[i]).0.rank() <= key.rank(),
                p < n ==> key.rank() < old_items[p as int].0.rank(),
            decreases n - p,
        {
            if key.precedes(&self.items[p].0) {
                break;
            }
            p += 1;
        }
        proof {
            if p < n {
                assert(key.rank() < old_items[p as int].0.rank());
            }
            assert forall|i: int| p <= i < n implies key.rank() < (#[trigger] old_items[i]).0.rank() by {
                assert(old_items[p as int].0.rank() <= old_items[i].0.rank());
            }
            vstd::seq_lib::to_multiset_insert(old_items, p as int, (key, value));
        }
        let ghost new_items = old_items.insert(p as int, (key, value));
        assert forall|i: int, j: int| 0 <= i <= j < new_items.len() implies (#[trigger] new_items[i]).0.rank()
            <= (#[trigger] new_items[j]).0.rank() by {
            if j < p {
            } else if i > p {
                assert(new_items[i] == old_items[i - 1]);
                assert(new_items[j] == old_items[j - 1]);
            } else if i == p {
                if j > p {
                    assert(new_items[j] == old_items[j - 1]);
                }
            } else {
                if j > p {
                    assert(new_items[j] == old_items[j - 1]);
                }
            }
        }
        let mut items: Vec<(K, V)> = Vec::new();
        std::mem::swap(&mut items, &mut self.items);
        items.insert(p, (key, value));
        self.items = items;
        assert(self@ == old_items.insert(p as int, (key, value)));
        assert(0 <= p <= old_items.len() && self@ == old_items.insert(p as int, (key, value)) && (
        forall|i: int| 0 <= i < p ==> (#[trigger] old_items[i]).0.rank() <= key.rank()) && (forall|
            i: int,
        | p <= i < old_items.len() ==> key.rank() < (#[trigger] old_items[i]).0.rank()));
    }

    /// Removes and returns an entry of least key, or `None` when empty.
    pub fn pop(&mut self) -> (r: Option<(K, V)>)
        ensures
            sorted_by_rank(old(self)@),
            old(self)@.len() == 0 ==> r is None && final(self)@ == old(self)@,
            old(self)@.len() > 0 ==> r == Some(old(self)@[0]) && final(self)@ == old(self)@.drop_first(),
            r matches Some(e) ==> forall|i: int|
                0 <= i < old(self)@.len() ==> e.0.rank() <= (#[trigger] old(self)@[i]).0.rank(),
    {
        proof {
            use_type_invariant(&*self);
        }
        if self.items.len() == 0 {
            return None;
        }
        let ghost old_items = self.items@;
        let mut items: Vec<(K, V)> = Vec::new();
        std::mem::swap(&mut items, &mut self.items);
        let e = items.remove(0);
        assert(items@ =~= old_items.drop_first());
        self.items = items;
        Some(e)
    }

    /// The least key, or `None` when empty.
    pub fn peek(&self) -> (r: Option<&K>)
        ensures
            sorted_by_rank(self@),
            self@.len() == 0 ==> r is None,
            self@.len() > 0 ==> r == Some(&self@[0].0),
            r matches Some(k) ==> forall|i: int| 0 <= i < self@.len() ==> k.rank() <= (#[trigger] self@[i]).0.rank(),
    {
        proof {
            use_type_invariant(self);
        }
        if self.items.len() == 0 {
            None
        } else {
            Some(&self.items[0].0)
        }
    }

    pub fn len(&self) -> (n: usize)
        ensures
            n == self@.len(),
    {
        self.items.len()
    }

    pub fn is_empty(&self) -> (b: bool)
        ensures
            b == (self@.len() == 0),
    {
        self.items.len() == 0
    }
}

impl<K: QueueKey, V> Default for MinPriorityQueue<K, V> {
    fn default() -> (q: Self)
        ensures
            q@ == Seq::<(K, V)>::empty(),
    {
        Self::new()
    }
}

} // verus!
