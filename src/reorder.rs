//! The per-consumer reorder buffer: segments arrive in any order and leave
//! in strictly increasing id order, `stride` apart.
use vstd::prelude::*;
use std::collections::BTreeMap;
use crate::layout::SegmentPrimes;
use crate::prime::{lemma_multiple_gap, lemma_multiple_step};

verus! {

broadcast use vstd::laws_cmp::group_laws_cmp, vstd::std_specs::btree::group_btree_axioms;

/// What the reorder protocol refuses.
#[derive(Clone, Copy, Debug, PartialEq, Eq, Structural)]
pub enum ReorderError {
    /// An id below the next expected one: it was released already.
    Stale { id: usize },
    /// An id that is already waiting.
    Duplicate { id: usize },
    /// An id that belongs to another consumer (not a whole number of
    /// strides above the next expected one).
    Foreign { id: usize },
    /// Segments still waiting when the stream ended: some id never came.
    Residual { pending: usize },
}

/// Holds out-of-order segments and releases them in id order.
pub struct ReorderBuffer {
    next_expected_id: usize,
    stride: usize,
    pending: BTreeMap<usize, SegmentPrimes>,
}

impl ReorderBuffer {
    /// The id released next.
    pub closed spec fn next_id(&self) -> usize {
        self.next_expected_id
    }

    /// Distance between consecutive ids of this consumer.
    pub closed spec fn step(&self) -> usize {
        self.stride
    }

    /// The waiting segments, by id.
    pub closed spec fn waiting(&self) -> Map<usize, SegmentPrimes> {
        self.pending@
    }

    /// Nothing waits below the next expected id, and each waiting segment
    /// is filed under its own id.
    pub open spec fn wf(&self) -> bool {
        &&& self.step() >= 1
        &&& forall|k: usize| #[trigger] self.waiting().contains_key(k) ==> k >= self.next_id()
        &&& forall|k: usize|
            #[trigger] self.waiting().contains_key(k) ==> (k - self.next_id()) % (self.step() as int)
                == 0
        &&& forall|k: usize|
            #[trigger] self.waiting().contains_key(k) ==> self.waiting()[k].segment_id == k
    }

    /// An empty buffer that first expects `first_id`, then every
    /// `stride`-th id after it.
    pub fn new(first_id: usize, stride: usize) -> (r: ReorderBuffer)
        requires
            stride >= 1,
        ensures
            r.wf(),
            r.next_id() == first_id,
            r.step() == stride,
            r.waiting() == Map::<usize, SegmentPrimes>::empty(),
    {
        ReorderBuffer { next_expected_id: first_id, stride, pending: BTreeMap::new() }
    }

    /// The id released next.
    pub fn next_expected_id(&self) -> (r: usize)
        ensures
            r == self.next_id(),
    {
        self.next_expected_id
    }

    /// How many segments wait.
    pub fn pending_len(&self) -> (r: usize)
        ensures
            r == self.waiting().len(),
    {
        self.pending.len()
    }

    /// `id` is a whole number of strides at or above the next expected id.
    pub open spec fn due_later(&self, id: usize) -> bool {
        id >= self.next_id() && (id - self.next_id()) % (self.step() as int) == 0
    }

    /// Files `seg` under its id; refuses an id already released, one of
    /// another consumer, or one already waiting, and then changes nothing.
    pub fn insert(&mut self, seg: SegmentPrimes) -> (r: Result<(), ReorderError>)
        requires
            old(self).wf(),
        ensures
            final(self).wf(),
            final(self).next_id() == old(self).next_id(),
            final(self).step() == old(self).step(),
            seg.segment_id < old(self).next_id() ==> r == Err::<(), ReorderError>(
                ReorderError::Stale { id: seg.segment_id },
            ) && final(self).waiting() == old(self).waiting(),
            seg.segment_id >= old(self).next_id() && !old(self).due_later(seg.segment_id) ==> r
                == Err::<(), ReorderError>(ReorderError::Foreign { id: seg.segment_id })
                && final(self).waiting() == old(self).waiting(),
            old(self).due_later(seg.segment_id) && old(self).waiting().contains_key(
                seg.segment_id,
            ) ==> r == Err::<(), ReorderError>(ReorderError::Duplicate { id: seg.segment_id })
                && final(self).waiting() == old(self).waiting(),
            old(self).due_later(seg.segment_id) && !old(self).waiting().contains_key(
                seg.segment_id,
            ) ==> r == Ok::<(), ReorderError>(()) && final(self).waiting() == old(
                self,
            ).waiting().insert(seg.segment_id, seg),
    {
        let id = seg.segment_id;
        if id < self.next_expected_id {
            return Err(ReorderError::Stale { id });
        }
        if (id - self.next_expected_id) % self.stride != 0 {
            return Err(ReorderError::Foreign { id });
        }
        if self.pending.contains_key(&id) {
            return Err(ReorderError::Duplicate { id });
        }
        self.pending.insert(id, seg);
        assert forall|k: usize| #[trigger] self.waiting().contains_key(k) implies k >= self.next_id() by {
            if k != id {
                assert(old(self).waiting().contains_key(k));
            }
        }
        assert forall|k: usize| #[trigger] self.waiting().contains_key(k) implies (k - self.next_id())
            % (self.step() as int) == 0 by {
            if k != id {
                assert(old(self).waiting().contains_key(k));
            }
        }
        assert forall|k: usize| #[trigger] self.waiting().contains_key(k) implies self.waiting()[k].segment_id == k by {
            if k != id {
                assert(old(self).waiting().contains_key(k));
            }
        }
        Ok(())
    }

    /// Releases the segment with the next expected id, if it waits (and the
    /// id after it is representable), and moves on by one stride.
    pub fn pop_ready(&mut self) -> (r: Option<SegmentPrimes>)
        requires
            old(self).wf(),
        ensures
            final(self).wf(),
            final(self).step() == old(self).step(),
            ({
                let ready = old(self).waiting().contains_key(old(self).next_id())
                    && old(self).next_id() + old(self).step() <= usize::MAX;
                &&& ready ==> r == Some(old(self).waiting()[old(self).next_id()])
                    && final(self).waiting() == old(self).waiting().remove(old(self).next_id())
                    && final(self).next_id() == old(self).next_id() + old(self).step()
                &&& !ready ==> r is None && final(self).waiting() == old(self).waiting()
                    && final(self).next_id() == old(self).next_id()
            }),
    {
        if self.next_expected_id > usize::MAX - self.stride {
            return None;
        }
        let id = self.next_expected_id;
        let ghost before = self.pending@;
        match self.pending.remove(&id) {
            Some(seg) => {
                self.next_expected_id = id + self.stride;
                proof {
                    assert(self.pending@ == before.remove(id));
                    assert forall|k: usize| #[trigger] self.waiting().contains_key(k) implies k
                        >= self.next_id() && (k - self.next_id()) % (self.step() as int) == 0 by {
                        assert(old(self).waiting().contains_key(k));
                        lemma_multiple_gap(k - id, 0, self.stride as int);
                        lemma_multiple_step(k - id, self.stride as int, -1);
                    }
                    assert forall|k: usize| #[trigger] self.waiting().contains_key(k) implies self.waiting()[k].segment_id == k by {
                        assert(old(self).waiting().contains_key(k));
                    }
                }
                assert(self.wf());
                Some(seg)
            },
            None => {
                assert(self.pending@ =~= before);
                assert(self.waiting() == old(self).waiting());
                None
            },
        }
    }

    /// Files `seg`, then releases, in order, every segment that is now due:
    /// ids `next`, `next + stride`, ... as far as they wait.
    pub fn accept(&mut self, seg: SegmentPrimes) -> (r: Result<Vec<SegmentPrimes>, ReorderError>)
        requires
            old(self).wf(),
        ensures
            final(self).wf(),
            final(self).step() == old(self).step(),
            match r {
                Err(e) => {
                    &&& final(self).waiting() == old(self).waiting()
                    &&& final(self).next_id() == old(self).next_id()
                    &&& seg.segment_id < old(self).next_id() ==> e == ReorderError::Stale {
                        id: seg.segment_id,
                    }
                    &&& seg.segment_id >= old(self).next_id() && !old(self).due_later(seg.segment_id)
                        ==> e == ReorderError::Foreign { id: seg.segment_id }
                    &&& old(self).due_later(seg.segment_id) ==> e == ReorderError::Duplicate {
                        id: seg.segment_id,
                    } && old(self).waiting().contains_key(seg.segment_id)
                },
                Ok(run) => {
                    &&& old(self).due_later(seg.segment_id)
                    &&& !old(self).waiting().contains_key(seg.segment_id)
                    &&& released_run(
                        old(self).waiting().insert(seg.segment_id, seg),
                        old(self).next_id(),
                        old(self).step(),
                        run@,
                        final(self).waiting(),
                        final(self).next_id(),
                    )
                    &&& !(final(self).waiting().contains_key(final(self).next_id())
                        && final(self).next_id() + final(self).step() <= usize::MAX)
                },
            },
    {
        match self.insert(seg) {
            Err(e) => Err(e),
            Ok(()) => {
                let ghost w0 = self.waiting();
                let ghost n0 = self.next_id();
                let mut run: Vec<SegmentPrimes> = Vec::new();
                loop
                    invariant
                        self.wf(),
                        self.step() == old(self).step(),
                        released_run(w0, n0, self.step(), run@, self.waiting(), self.next_id()),
                    ensures
                        released_run(w0, n0, self.step(), run@, self.waiting(), self.next_id()),
                        !(self.waiting().contains_key(self.next_id()) && self.next_id()
                            + self.step() <= usize::MAX),
                    decreases self.waiting().len(),
                {
                    let ghost before = self.waiting();
                    let ghost n = self.next_id();
                    let ghost run0 = run@;
                    match self.pop_ready() {
                        Some(s) => {
                            proof {
                                lemma_released_run_step(w0, n0, self.step(), run0, before, n, s);
                            }
                            run.push(s);
                        },
                        None => {
                            break;
                        },
                    }
                }
                Ok(run)
            },
        }
    }

    /// Ends the stream: succeeds only if nothing waits.
    pub fn finish(&self) -> (r: Result<(), ReorderError>)
        ensures
            self.waiting().len() == 0 ==> r == Ok::<(), ReorderError>(()),
            self.waiting().len() != 0 ==> r == Err::<(), ReorderError>(
                ReorderError::Residual { pending: self.waiting().len() as usize },
            ),
    {
        let n = self.pending.len();
        if n == 0 {
            Ok(())
        } else {
            Err(ReorderError::Residual { pending: n })
        }
    }

    /// Hands out every waiting segment, gaps or not, in ascending id order,
    /// and leaves nothing waiting. Used once the stream has ended, after
    /// `finish` has reported what was still waiting.
    pub fn drain_residual(&mut self) -> (r: Vec<SegmentPrimes>)
        requires
            old(self).wf(),
        ensures
            final(self).wf(),
            final(self).step() == old(self).step(),
            final(self).waiting() == Map::<usize, SegmentPrimes>::empty(),
            forall|a: int, b: int| 0 <= a < b < r@.len() ==> r@[a].segment_id < r@[b].segment_id,
            forall|i: int|
                0 <= i < r@.len() ==> old(self).waiting().contains_key(#[trigger] r@[i].segment_id)
                    && old(self).waiting()[r@[i].segment_id] == r@[i],
            forall|k: usize|
                #[trigger] old(self).waiting().contains_key(k) ==> exists|i: int|
                    0 <= i < r@.len() && r@[i].segment_id == k,
    {
        let ghost w0 = self.waiting();
        let ghost n0 = self.next_id();
        let mut out: Vec<SegmentPrimes> = Vec::new();
        proof {
            vstd::arithmetic::div_mod::lemma_small_mod(0, self.stride as nat);
        }
        loop
            invariant
                self.wf(),
                self.step() == old(self).step(),
                w0 == old(self).waiting(),
                n0 == old(self).next_id(),
                n0 <= self.next_id(),
                (self.next_id() - n0) % (self.step() as int) == 0,
                forall|k: usize| #[trigger] self.waiting().contains_key(k) ==> w0.contains_key(k)
                    && self.waiting()[k] == w0[k],
                forall|k: usize| #[trigger] w0.contains_key(k) && k >= self.next_id() ==> self.waiting().contains_key(k),
                forall|a: int, b: int| 0 <= a < b < out@.len() ==> out@[a].segment_id < out@[b].segment_id,
                forall|i: int| 0 <= i < out@.len() ==> (#[trigger] out@[i]).segment_id < self.next_id(),
                forall|i: int|
                    0 <= i < out@.len() ==> w0.contains_key(#[trigger] out@[i].segment_id)
                        && w0[out@[i].segment_id] == out@[i],
                forall|k: usize|
                    #[trigger] w0.contains_key(k) && k < self.next_id() ==> exists|i: int|
                        0 <= i < out@.len() && out@[i].segment_id == k,
            ensures
                self.wf(),
                self.step() == old(self).step(),
                self.waiting() == Map::<usize, SegmentPrimes>::empty(),
                forall|a: int, b: int| 0 <= a < b < out@.len() ==> out@[a].segment_id < out@[b].segment_id,
                forall|i: int|
                    0 <= i < out@.len() ==> w0.contains_key(#[trigger] out@[i].segment_id)
                        && w0[out@[i].segment_id] == out@[i],
                forall|k: usize|
                    #[trigger] w0.contains_key(k) ==> exists|i: int|
                        0 <= i < out@.len() && out@[i].segment_id == k,
            decreases usize::MAX - self.next_id(),
        {
            let id = self.next_expected_id;
            let ghost before = self.pending@;
            let ghost pre_w = self.waiting();
            let ghost out0 = out@;
            if let Some(seg) = self.pending.remove(&id) {
                proof {
                    assert(self.pending@ == before.remove(id));
                    assert(pre_w.contains_key(id) && pre_w[id] == seg);
                    assert(seg.segment_id == id);
                }
                out.push(seg);
                proof {
                    assert forall|a: int, b: int| 0 <= a < b < out@.len() implies out@[a].segment_id
                        < out@[b].segment_id by {
                        if b == out@.len() - 1 {
                            assert(out@[a] == out0[a]);
                        } else {
                            assert(out@[a] == out0[a] && out@[b] == out0[b]);
                        }
                    }
                    assert forall|k: usize| #[trigger] w0.contains_key(k) && k < id + 1 implies exists|i: int|
                        0 <= i < out@.len() && out@[i].segment_id == k by {
                        if k == id {
                            assert(out@[out@.len() - 1].segment_id == k);
                        } else {
                            let i = choose|i: int| 0 <= i < out0.len() && out0[i].segment_id == k;
                            assert(out@[i] == out0[i]);
                        }
                    }
                }
            } else {
                proof {
                    assert(self.pending@ =~= before);
                    assert forall|k: usize| #[trigger] w0.contains_key(k) && k < id + 1 implies exists|i: int|
                        0 <= i < out@.len() && out@[i].segment_id == k by {
                        if k == id {
                            assert(self.waiting().contains_key(k));
                        }
                    }
                }
            }
            if self.pending.len() == 0 {
                proof {
                    assert(self.waiting() =~= Map::<usize, SegmentPrimes>::empty());
                    assert forall|k: usize| #[trigger] w0.contains_key(k) implies exists|i: int|
                        0 <= i < out@.len() && out@[i].segment_id == k by {
                        if k > id {
                            assert(self.waiting().contains_key(k));
                        }
                    }
                }
                return out;
            }
            proof {
                assert(exists|k: usize| self.waiting().dom().contains(k)) by {
                    if !(exists|k: usize| self.waiting().dom().contains(k)) {
                        assert(self.waiting().dom() =~= Set::<usize>::empty());
                    }
                }
                let k = choose|k: usize| self.waiting().dom().contains(k);
                assert(self.waiting().contains_key(k));
                assert(k != id);
                assert(pre_w.contains_key(k));
                assert(k >= id && (k - id) % (self.stride as int) == 0);
                vstd::arithmetic::div_mod::lemma_small_mod(0, self.stride as nat);
                lemma_multiple_gap(k - id, 0, self.stride as int);
            }
            self.next_expected_id = id + self.stride;
            proof {
                lemma_multiple_step(id - n0, self.stride as int, 1);
                assert forall|k: usize| #[trigger] self.waiting().contains_key(k) implies k >= self.next_id()
                    && (k - self.next_id()) % (self.step() as int) == 0 by {
                    assert(old(self).waiting().contains_key(k));
                    lemma_multiple_gap(k - id, 0, self.stride as int);
                    lemma_multiple_step(k - id, self.stride as int, -1);
                }
                assert forall|k: usize| #[trigger] w0.contains_key(k) && k < self.next_id() implies exists|i: int|
                    0 <= i < out@.len() && out@[i].segment_id == k by {
                    if k > id {
                        assert(self.waiting().contains_key(k));
                        assert((k - id) % (self.stride as int) == 0);
                        lemma_multiple_gap(k - id, 0, self.stride as int);
                    }
                }
            }
        }
    }
}

/// Starting from the waiting map `w0` and next id `n0`, releasing `run`
/// (ids `n0`, `n0 + stride`, ... in turn) leaves the map `w` and next id `n`.
pub open spec fn released_run(
    w0: Map<usize, SegmentPrimes>,
    n0: usize,
    stride: usize,
    run: Seq<SegmentPrimes>,
    w: Map<usize, SegmentPrimes>,
    n: usize,
) -> bool
    decreases run.len(),
{
    if run.len() == 0 {
        w == w0 && n == n0
    } else {
        let last = run[run.len() - 1];
        &&& last.segment_id + stride == n
        &&& released_run(
            w0,
            n0,
            stride,
            run.drop_last(),
            w.insert(last.segment_id, last),
            last.segment_id,
        )
        &&& !w.contains_key(last.segment_id)
    }
}

/// A released run goes out in strictly increasing id order, each id one
/// stride after the one before, starting at the id that was expected.
pub proof fn lemma_run_ascending(
    w0: Map<usize, SegmentPrimes>,
    n0: usize,
    stride: usize,
    run: Seq<SegmentPrimes>,
    w: Map<usize, SegmentPrimes>,
    n: usize,
)
    requires
        released_run(w0, n0, stride, run, w, n),
        stride >= 1,
    ensures
        run.len() > 0 ==> run[0].segment_id == n0,
        forall|k: int| 0 <= k < run.len() - 1 ==> #[trigger] run[k + 1].segment_id == run[k].segment_id + stride,
        forall|a: int, b: int| 0 <= a < b < run.len() ==> run[a].segment_id < run[b].segment_id,
        n >= n0,
    decreases run.len(),
{
    if run.len() > 0 {
        let last = run[run.len() - 1];
        let front = run.drop_last();
        lemma_run_ascending(
            w0,
            n0,
            stride,
            front,
            w.insert(last.segment_id, last),
            last.segment_id,
        );
        assert forall|k: int| 0 <= k < run.len() - 1 implies #[trigger] run[k + 1].segment_id
            == run[k].segment_id + stride by {
            if k < run.len() - 2 {
                assert(front[k + 1] == run[k + 1] && front[k] == run[k]);
            } else if front.len() > 0 {
                assert(front[k] == run[k]);
            }
        }
        assert forall|a: int, b: int| 0 <= a < b < run.len() implies run[a].segment_id
            < run[b].segment_id by {
            if b < run.len() - 1 {
                assert(front[a] == run[a] && front[b] == run[b]);
            } else if front.len() > 0 {
                assert(front[a] == run[a]);
                assert(front[front.len() - 1] == run[run.len() - 2]);
                assert(run[run.len() - 2].segment_id + stride == last.segment_id);
                if a < front.len() - 1 {
                    assert(front[a].segment_id < front[front.len() - 1].segment_id);
                }
            }
        }
        if front.len() > 0 {
            assert(front[0] == run[0]);
        }
    }
}

proof fn lemma_released_run_step(
    w0: Map<usize, SegmentPrimes>,
    n0: usize,
    stride: usize,
    run: Seq<SegmentPrimes>,
    w: Map<usize, SegmentPrimes>,
    n: usize,
    s: SegmentPrimes,
)
    requires
        released_run(w0, n0, stride, run, w, n),
        w.contains_key(n),
        s == w[n],
        s.segment_id == n,
        n + stride <= usize::MAX,
    ensures
        released_run(w0, n0, stride, run.push(s), w.remove(n), (n + stride) as usize),
{
    let r2 = run.push(s);
    assert(r2.drop_last() == run);
    assert(w.remove(n).insert(n, s) == w);
}

} // verus!
