use vstd::prelude::*;

use std::collections::VecDeque;

verus! {

/// A ring-buffer log collector: it keeps the latest `capacity` entries and
/// counts the ones it dropped to make room.
pub struct LogCollector<T> {
    entries: VecDeque<T>,
    capacity: usize,
    total_dropped: u64,
}

impl<T> LogCollector<T> {
    /// The entries held, oldest first.
    pub closed spec fn entries_view(&self) -> Seq<T> {
        self.entries@
    }

    /// The capacity the collector was made with.
    pub closed spec fn capacity_view(&self) -> usize {
        self.capacity
    }

    /// How many entries were dropped so far.
    pub closed spec fn dropped_view(&self) -> u64 {
        self.total_dropped
    }

    /// An empty collector for at most `capacity` entries.
    pub fn new(capacity: usize) -> (c: Self)
        ensures
            c.entries_view() == Seq::<T>::empty(),
            c.capacity_view() == capacity,
            c.dropped_view() == 0,
    {
        let reserve = if capacity < 1024 {
            capacity
        } else {
            1024
        };
        LogCollector { entries: VecDeque::with_capacity(reserve), capacity, total_dropped: 0 }
    }

    /// Adds an entry at the end. When the collector already holds
    /// `capacity` entries or more, the oldest one (if any) is dropped first
    /// and counted as dropped.
    pub fn push(&mut self, entry: T)
        requires
            old(self).dropped_view() < u64::MAX,
        ensures
            final(self).capacity_view() == old(self).capacity_view(),
            old(self).entries_view().len() >= old(self).capacity_view() ==> {
                &&& final(self).entries_view() == old(self).entries_view().drop_first().push(entry)
                    || (old(self).entries_view().len() == 0 && final(self).entries_view() == seq![entry])
                &&& final(self).dropped_view() == old(self).dropped_view() + 1
            },
            old(self).entries_view().len() < old(self).capacity_view() ==> {
                &&& final(self).entries_view() == old(self).entries_view().push(entry)
                &&& final(self).dropped_view() == old(self).dropped_view()
            },
    {
        if self.entries.len() >= self.capacity {
            let _ = self.entries.pop_front();
            self.total_dropped = self.total_dropped + 1;
        }
        self.entries.push_back(entry);
    }

    /// Takes every entry out, oldest first, and leaves the collector empty.
    pub fn drain(&mut self) -> (out: Vec<T>)
        ensures
            out@ == old(self).entries_view(),
            final(self).entries_view() == Seq::<T>::empty(),
            final(self).capacity_view() == old(self).capacity_view(),
            final(self).dropped_view() == old(self).dropped_view(),
    {
        let ghost all = self.entries@;
        let mut out: Vec<T> = Vec::new();
        while self.entries.len() > 0
            invariant
                out@ + self.entries@ == all,
                self.capacity == old(self).capacity,
                self.total_dropped == old(self).total_dropped,
            decreases self.entries@.len(),
        {
            let ghost before = self.entries@;
            match self.entries.pop_front() {
                Some(e) => {
                    out.push(e);
                    proof {
                        assert(out@ + self.entries@ =~= all);
                    }
                },
                None => {},
            }
        }
        proof {
            assert(out@ =~= all);
        }
        out
    }

    /// The number of entries held.
    pub fn len(&self) -> (n: usize)
        ensures
            n == self.entries_view().len(),
    {
        self.entries.len()
    }

    /// Whether no entry is held.
    pub fn is_empty(&self) -> (b: bool)
        ensures
            b == (self.entries_view().len() == 0),
    {
        self.entries.len() == 0
    }

    /// How many entries were dropped so far.
    pub fn total_dropped(&self) -> (n: u64)
        ensures
            n == self.dropped_view(),
    {
        self.total_dropped
    }
}

} // verus!
