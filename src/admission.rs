//! Admission control for an asynchronous writer: byte offsets for each
//! write, when to hand a batch to the kernel, and how many completions to
//! wait for so that the writes in flight stay under a ceiling.
use vstd::prelude::*;

verus! {

/// A write that completed with a failure; the run must stop.
#[derive(Clone, Copy, Debug, PartialEq, Eq, Structural)]
pub enum WriteError {
    /// The completion carried this negative result code.
    Failed { code: i32 },
}

/// What to do for one write.
#[derive(Clone, Copy, Debug, PartialEq, Eq, Structural)]
pub struct WritePlan {
    /// Where in the file the write goes.
    pub offset: u64,
    /// Hand the queued writes to the kernel now.
    pub submit_batch: bool,
    /// Completions to wait for before the next write.
    pub wait_for: usize,
}

/// Bookkeeping of an asynchronous writer.
pub struct WriteAdmission {
    offset: u64,
    submitted: u64,
    completed: u64,
    queued: usize,
    ceiling: usize,
    drain: usize,
    batch_size: usize,
}

impl WriteAdmission {
    /// Next free byte offset.
    pub closed spec fn offset_of(&self) -> int {
        self.offset as int
    }

    /// Writes handed out and not yet completed.
    pub closed spec fn in_flight_of(&self) -> int {
        self.submitted - self.completed
    }

    /// Writes planned since the last batch went to the kernel.
    pub closed spec fn queued_of(&self) -> int {
        self.queued as int
    }

    /// The most writes allowed in flight between writes.
    pub closed spec fn ceiling_of(&self) -> int {
        self.ceiling as int
    }

    /// Completions waited for at once when over the ceiling.
    pub closed spec fn drain_of(&self) -> int {
        self.drain as int
    }

    /// Writes per batch.
    pub closed spec fn batch_size_of(&self) -> int {
        self.batch_size as int
    }

    /// Counters are consistent.
    pub closed spec fn wf(&self) -> bool {
        &&& self.completed <= self.submitted
        &&& self.drain >= 1
        &&& self.batch_size >= 1
        &&& self.queued < self.batch_size
    }

    /// A writer at offset 0 with nothing in flight.
    pub fn new(ceiling: usize, drain: usize, batch_size: usize) -> (r: WriteAdmission)
        requires
            drain >= 1,
            batch_size >= 1,
        ensures
            r.wf(),
            r.offset_of() == 0,
            r.in_flight_of() == 0,
            r.queued_of() == 0,
            r.ceiling_of() == ceiling,
            r.drain_of() == drain,
            r.batch_size_of() == batch_size,
    {
        WriteAdmission { offset: 0, submitted: 0, completed: 0, queued: 0, ceiling, drain, batch_size }
    }

    /// Writes in flight.
    pub fn in_flight(&self) -> (r: u64)
        requires
            self.wf(),
        ensures
            r == self.in_flight_of(),
    {
        self.submitted - self.completed
    }

    /// Plans a write of `len` bytes: it goes at the current offset, which
    /// moves on by `len`; every `batch_size`-th write sends the batch; when
    /// the writes in flight exceed the ceiling, wait for `drain` of them (or
    /// all, if fewer). `None`, changing nothing, when the offset or the
    /// count would overflow.
    pub fn plan_write(&mut self, len: u64) -> (r: Option<WritePlan>)
        requires
            old(self).wf(),
        ensures
            final(self).wf(),
            final(self).ceiling_of() == old(self).ceiling_of(),
            final(self).drain_of() == old(self).drain_of(),
            final(self).batch_size_of() == old(self).batch_size_of(),
            match r {
                None => {
                    &&& old(self).offset_of() + len > u64::MAX || old(self).submitted_would_overflow()
                    &&& final(self).offset_of() == old(self).offset_of()
                    &&& final(self).in_flight_of() == old(self).in_flight_of()
                    &&& final(self).queued_of() == old(self).queued_of()
                },
                Some(plan) => {
                    let n = old(self).in_flight_of() + 1;
                    &&& old(self).offset_of() + len <= u64::MAX
                    &&& !old(self).submitted_would_overflow()
                    &&& plan.offset == old(self).offset_of()
                    &&& final(self).offset_of() == old(self).offset_of() + len
                    &&& final(self).in_flight_of() == n
                    &&& plan.submit_batch == (old(self).queued_of() + 1 == old(self).batch_size_of())
                    &&& final(self).queued_of() == if plan.submit_batch {
                        0
                    } else {
                        old(self).queued_of() + 1
                    }
                    &&& plan.wait_for == if n > old(self).ceiling_of() {
                        if old(self).drain_of() < n {
                            old(self).drain_of()
                        } else {
                            n
                        }
                    } else {
                        0
                    }
                },
            },
    {
        if self.offset > u64::MAX - len || self.submitted == u64::MAX {
            return None;
        }
        let offset = self.offset;
        self.offset = self.offset + len;
        self.submitted = self.submitted + 1;
        let submit_batch = self.queued + 1 == self.batch_size;
        if submit_batch {
            self.queued = 0;
        } else {
            self.queued = self.queued + 1;
        }
        let n = self.submitted - self.completed;
        let wait_for: usize = if n > self.ceiling as u64 {
            if (self.drain as u64) < n {
                self.drain
            } else {
                n as usize
            }
        } else {
            0
        };
        Some(WritePlan { offset, submit_batch, wait_for })
    }

    /// The submitted count cannot grow.
    pub closed spec fn submitted_would_overflow(&self) -> bool {
        self.submitted == u64::MAX
    }

    /// Records one completion: a negative `result` is a failed write and
    /// stops the run; otherwise one write fewer is in flight.
    pub fn record_completion(&mut self, result: i32) -> (r: Result<(), WriteError>)
        requires
            old(self).wf(),
            old(self).in_flight_of() >= 1,
        ensures
            final(self).wf(),
            final(self).offset_of() == old(self).offset_of(),
            final(self).queued_of() == old(self).queued_of(),
            final(self).ceiling_of() == old(self).ceiling_of(),
            final(self).drain_of() == old(self).drain_of(),
            final(self).batch_size_of() == old(self).batch_size_of(),
            result < 0 ==> r == Err::<(), WriteError>(WriteError::Failed { code: result })
                && final(self).in_flight_of() == old(self).in_flight_of(),
            result >= 0 ==> r == Ok::<(), WriteError>(()) && final(self).in_flight_of() == old(
                self,
            ).in_flight_of() - 1,
    {
        if result < 0 {
            return Err(WriteError::Failed { code: result });
        }
        self.completed = self.completed + 1;
        Ok(())
    }

    /// Closes the stream: whether a partial batch still has to go to the
    /// kernel, and how many completions remain to be waited for.
    pub fn closing(&self) -> (r: (bool, u64))
        requires
            self.wf(),
        ensures
            r.0 == (self.queued_of() > 0),
            r.1 == self.in_flight_of(),
    {
        (self.queued > 0, self.submitted - self.completed)
    }
}

/// Waiting as planned keeps the writes in flight at or under the ceiling
/// whenever the drain step is at least the excess a single write can make:
/// in flight before a write at most `ceiling`, after the write and its wait
/// again at most `ceiling`.
pub proof fn lemma_ceiling_kept(in_flight: int, ceiling: int, drain: int)
    requires
        0 <= in_flight <= ceiling,
        drain >= 1,
    ensures
        ({
            let n = in_flight + 1;
            let wait = if n > ceiling {
                if drain < n {
                    drain
                } else {
                    n
                }
            } else {
                0
            };
            n - wait <= ceiling && n - wait >= 0
        }),
{
}

} // verus!
