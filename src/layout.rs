//! How the range above the trial-divisor base is cut into segments, which
//! consumer each segment goes to, and what a worker hands over.
use vstd::prelude::*;
use crate::prime::lists_primes_in;
use crate::segment::{is_divisor_base, sieve_segment, SEGMENT_SIZE_NUMBERS, SEGMENT_WORDS};

verus! {

/// The primes found in one segment, tagged with the segment's id. Id 0 is
/// the trial-divisor base itself; segment index `i` travels as id `i + 1`.
#[derive(Clone, Debug)]
pub struct SegmentPrimes {
    pub primes: Vec<usize>,
    pub segment_id: usize,
}

/// A raw sieved segment: bit `idx` of `bits` stands for `low + 2 * idx`,
/// and only numbers up to `high` count.
#[derive(Clone, Debug)]
pub struct SegmentData {
    pub bits: Vec<u64>,
    pub low: usize,
    pub high: usize,
}

/// The consumer (0-based) that segment id `segment_id` is routed to.
pub open spec fn route(segment_id: int, num_consumers: int) -> int {
    (segment_id - 1) % num_consumers
}

/// Routes a segment id (1 and up) to one of `num_consumers` consumers:
/// ids `1, 1 + K, 1 + 2K, ...` go to consumer 0, and so on.
pub fn consumer_of(segment_id: usize, num_consumers: usize) -> (r: usize)
    requires
        segment_id >= 1,
        num_consumers >= 1,
    ensures
        r == route(segment_id as int, num_consumers as int),
        r < num_consumers,
{
    (segment_id - 1) % num_consumers
}

/// The first segment id that consumer `consumer_index` (0-based) receives.
pub fn first_id_of(consumer_index: usize) -> (r: usize)
    requires
        consumer_index < usize::MAX,
    ensures
        r == consumer_index + 1,
{
    consumer_index + 1
}

/// The first odd number above `s`: where the segments start.
pub open spec fn first_segment_low(s: int) -> int {
    if (s + 1) % 2 == 0 {
        s + 2
    } else {
        s + 1
    }
}

/// Number of segments needed to cover `[low, limit]`.
pub open spec fn segment_count(low: int, limit: int) -> int {
    if limit >= low {
        (limit - low + SEGMENT_SIZE_NUMBERS) / (SEGMENT_SIZE_NUMBERS as int)
    } else {
        0
    }
}

/// The cut of `[first_segment_low(sqrt_limit), limit]` into segments of
/// `SEGMENT_SIZE_NUMBERS` numbers; only the last may be shorter.
pub struct SegmentLayout {
    pub limit: usize,
    pub sqrt_limit: usize,
    pub low: usize,
    pub total_segments: usize,
}

impl SegmentLayout {
    /// The layout's fields agree with its limit and square root.
    pub open spec fn wf(&self) -> bool {
        &&& self.sqrt_limit >= 1
        &&& self.sqrt_limit * self.sqrt_limit <= self.limit
        &&& self.limit < (self.sqrt_limit + 1) * (self.sqrt_limit + 1)
        &&& self.limit + 2 <= usize::MAX
        &&& self.low == first_segment_low(self.sqrt_limit as int)
        &&& self.total_segments == segment_count(self.low as int, self.limit as int)
    }

    /// Lowest number of segment `idx`.
    pub open spec fn seg_low(&self, idx: int) -> int {
        self.low + idx * SEGMENT_SIZE_NUMBERS
    }

    /// Highest number of segment `idx`.
    pub open spec fn seg_high(&self, idx: int) -> int {
        let h = self.seg_low(idx) + SEGMENT_SIZE_NUMBERS - 1;
        if h <= self.limit {
            h
        } else {
            self.limit as int
        }
    }

    /// Lays out the segments above `sqrt_limit` up to `limit`.
    pub fn new(limit: usize, sqrt_limit: usize) -> (r: SegmentLayout)
        requires
            sqrt_limit >= 1,
            sqrt_limit * sqrt_limit <= limit,
            limit < (sqrt_limit + 1) * (sqrt_limit + 1),
            limit + 2 <= usize::MAX,
        ensures
            r.wf(),
            r.limit == limit,
            r.sqrt_limit == sqrt_limit,
    {
        assert(sqrt_limit <= limit) by (nonlinear_arith)
            requires
                sqrt_limit >= 1,
                sqrt_limit * sqrt_limit <= limit,
        ;
        let low = if (sqrt_limit + 1) % 2 == 0 {
            sqrt_limit + 2
        } else {
            sqrt_limit + 1
        };
        let total_segments = if limit >= low {
            let range = limit - low + 1;
            proof {
                let x = range + SEGMENT_SIZE_NUMBERS - 1;
                vstd::arithmetic::div_mod::lemma_fundamental_div_mod(range as int, 524288);
                vstd::arithmetic::div_mod::lemma_fundamental_div_mod(x as int, 524288);
                vstd::arithmetic::div_mod::lemma_mod_pos_bound(range as int, 524288);
                vstd::arithmetic::div_mod::lemma_mod_pos_bound(x as int, 524288);
            }
            if range % SEGMENT_SIZE_NUMBERS == 0 {
                range / SEGMENT_SIZE_NUMBERS
            } else {
                range / SEGMENT_SIZE_NUMBERS + 1
            }
        } else {
            0
        };
        SegmentLayout { limit, sqrt_limit, low, total_segments }
    }

    /// The bounds `[low, high]` of segment `idx`.
    pub fn bounds(&self, idx: usize) -> (r: (usize, usize))
        requires
            self.wf(),
            idx < self.total_segments,
        ensures
            r.0 == self.seg_low(idx as int),
            r.1 == self.seg_high(idx as int),
            r.0 <= r.1 <= self.limit,
            r.1 - r.0 < SEGMENT_SIZE_NUMBERS,
            r.0 % 2 == 1,
            r.0 > self.sqrt_limit,
    {
        proof {
            self.lemma_segment_in_range(idx as int);
        }
        let seg_low = self.low + idx * SEGMENT_SIZE_NUMBERS;
        let seg_high = if self.limit - seg_low < SEGMENT_SIZE_NUMBERS - 1 {
            self.limit
        } else {
            seg_low + (SEGMENT_SIZE_NUMBERS - 1)
        };
        (seg_low, seg_high)
    }

    /// Every segment starts inside `[low, limit]`.
    pub proof fn lemma_segment_in_range(&self, idx: int)
        requires
            self.wf(),
            0 <= idx < self.total_segments,
        ensures
            self.low <= self.seg_low(idx) <= self.limit,
            self.seg_low(idx) % 2 == 1,
            self.seg_low(idx) > self.sqrt_limit,
    {
        let range = self.limit - self.low + 1;
        assert(self.limit >= self.low);
        assert(idx * SEGMENT_SIZE_NUMBERS < range) by (nonlinear_arith)
            requires
                0 <= idx < (range - 1 + 524288) / 524288,
                range >= 1,
                SEGMENT_SIZE_NUMBERS == 524288,
        ;
        assert((idx * SEGMENT_SIZE_NUMBERS) % 2 == 0) by (nonlinear_arith)
            requires
                SEGMENT_SIZE_NUMBERS == 524288,
        ;
    }

    /// The trial-divisor base of this layout lists the primes up to here:
    /// every prime below the first segment.
    pub open spec fn base_bound(&self) -> int {
        self.low - 1
    }

    /// Segments are contiguous: each starts right after the one before, and
    /// the last ends at the limit.
    pub proof fn lemma_contiguous(&self, idx: int)
        requires
            self.wf(),
            0 <= idx < self.total_segments,
        ensures
            idx + 1 < self.total_segments ==> self.seg_high(idx) + 1 == self.seg_low(idx + 1),
            idx + 1 == self.total_segments ==> self.seg_high(idx) == self.limit,
    {
        let range = self.limit - self.low + 1;
        self.lemma_segment_in_range(idx);
        if idx + 1 < self.total_segments {
            self.lemma_segment_in_range(idx + 1);
        } else {
            assert(idx * SEGMENT_SIZE_NUMBERS + SEGMENT_SIZE_NUMBERS >= range) by (nonlinear_arith)
                requires
                    idx + 1 == (range - 1 + 524288) / 524288,
                    range >= 1,
                    SEGMENT_SIZE_NUMBERS == 524288,
            ;
        }
    }

    /// Sieves segment `idx` with the trial-divisor base `small_primes`,
    /// reusing `scratch`, and tags the primes found with id `idx + 1`.
    pub fn compute_segment(
        &self,
        idx: usize,
        small_primes: &Vec<usize>,
        scratch: &mut Vec<u64>,
    ) -> (r: SegmentPrimes)
        requires
            self.wf(),
            idx < self.total_segments,
            is_divisor_base(small_primes@, self.base_bound()),
            old(scratch).len() == SEGMENT_WORDS,
        ensures
            final(scratch).len() == SEGMENT_WORDS,
            r.segment_id == idx + 1,
            lists_primes_in(r.primes@, self.seg_low(idx as int), self.seg_high(idx as int)),
    {
        let (seg_low, seg_high) = self.bounds(idx);
        let b = self.low - 1;
        assert(seg_high < (b + 1) * (b + 1)) by (nonlinear_arith)
            requires
                seg_high <= self.limit,
                self.limit < (self.sqrt_limit + 1) * (self.sqrt_limit + 1),
                b >= self.sqrt_limit,
                self.sqrt_limit >= 1,
        ;
        let primes = sieve_segment(seg_low, seg_high, small_primes, b, scratch);
        SegmentPrimes { primes, segment_id: idx + 1 }
    }
}

} // verus!
