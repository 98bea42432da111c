//! The segment scheduler: one cursor over the segment indices, from which
//! workers claim their next unit of work. Shared between threads behind a
//! lock, it hands out every index exactly once.
use vstd::prelude::*;
use crate::layout::{consumer_of, route};

verus! {

/// A cursor over the indices `0 .. total`.
pub struct SegmentScheduler {
    next: usize,
    total: usize,
}

impl SegmentScheduler {
    /// The next index to hand out (at most `total`).
    pub closed spec fn next_of(&self) -> int {
        self.next as int
    }

    /// The number of indices.
    pub closed spec fn total_of(&self) -> int {
        self.total as int
    }

    /// The cursor never passes the end.
    pub closed spec fn wf(&self) -> bool {
        self.next <= self.total
    }

    /// A scheduler over `0 .. total` that has handed out nothing.
    pub fn new(total: usize) -> (r: SegmentScheduler)
        ensures
            r.wf(),
            r.next_of() == 0,
            r.total_of() == total,
    {
        SegmentScheduler { next: 0, total }
    }

    /// Claims the next index, or `None` once all were handed out. Each index
    /// is handed out once, in increasing order, then never again.
    pub fn claim_next(&mut self) -> (r: Option<usize>)
        requires
            old(self).wf(),
        ensures
            final(self).wf(),
            final(self).total_of() == old(self).total_of(),
            old(self).next_of() < old(self).total_of() ==> r == Some(old(self).next_of() as usize)
                && final(self).next_of() == old(self).next_of() + 1,
            old(self).next_of() >= old(self).total_of() ==> r is None && final(self).next_of()
                == old(self).next_of(),
    {
        if self.next < self.total {
            let idx = self.next;
            self.next = self.next + 1;
            Some(idx)
        } else {
            None
        }
    }

    /// Claims indices until one goes to an open consumer (segment id
    /// `index + 1` routed among `open.len()` consumers), skipping those that
    /// go to closed ones; returns that index and its consumer, or `None`
    /// once every index was handed out.
    pub fn next_open_work(&mut self, open: &Vec<bool>) -> (r: Option<(usize, usize)>)
        requires
            old(self).wf(),
            open@.len() >= 1,
            old(self).total_of() < usize::MAX,
        ensures
            final(self).wf(),
            final(self).total_of() == old(self).total_of(),
            match r {
                Some((i, c)) => {
                    &&& old(self).next_of() <= i < old(self).total_of()
                    &&& c == route(i + 1, open@.len() as int)
                    &&& open@[c as int]
                    &&& final(self).next_of() == i + 1
                    &&& forall|j: int|
                        old(self).next_of() <= j < i ==> !open@[#[trigger] route(j + 1, open@.len() as int)]
                },
                None => {
                    &&& final(self).next_of() == old(self).total_of()
                    &&& forall|j: int|
                        old(self).next_of() <= j < old(self).total_of() ==> !open@[#[trigger] route(
                            j + 1,
                            open@.len() as int,
                        )]
                },
            },
    {
        let ghost start = self.next_of();
        let k = open.len();
        loop
            invariant
                self.wf(),
                self.total_of() == old(self).total_of(),
                self.total_of() < usize::MAX,
                start == old(self).next_of(),
                start <= self.next_of(),
                k == open@.len(),
                k >= 1,
                forall|j: int|
                    start <= j < self.next_of() ==> !open@[#[trigger] route(j + 1, k as int)],
            decreases self.total_of() - self.next_of(),
        {
            match self.claim_next() {
                None => {
                    return None;
                },
                Some(i) => {
                    let c = consumer_of(i + 1, k);
                    if open[c] {
                        return Some((i, c));
                    }
                },
            }
        }
    }
}

} // verus!
