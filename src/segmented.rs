//! Sieves that walk the segments of a layout one after another.
use vstd::prelude::*;
use crate::bits::all_set;
use crate::layout::{SegmentLayout, SegmentPrimes};
use crate::prime::{is_isqrt, isqrt, lists_primes_in, lemma_listing_concat};
use crate::segment::{is_divisor_base, SEGMENT_WORDS};
use crate::sieve::{find_primes_v1, find_primes_v2, find_primes_v3, find_primes_v4};

verus! {

/// A copy of `v`.
pub fn copy_values(v: &Vec<usize>) -> (r: Vec<usize>)
    ensures
        r@ == v@,
{
    let mut r: Vec<usize> = Vec::with_capacity(v.len());
    let mut i: usize = 0;
    while i < v.len()
        invariant
            i <= v.len(),
            r@ == v@.subrange(0, i as int),
        decreases v.len() - i,
    {
        r.push(v[i]);
        i = i + 1;
        assert(r@ == v@.subrange(0, i as int));
    }
    assert(v@.subrange(0, v.len() as int) == v@);
    r
}

/// The layout for `limit` and its trial-divisor base: every prime below the
/// first segment. Needs `limit >= 3`.
pub fn layout_and_base(limit: usize) -> (r: (SegmentLayout, Vec<usize>))
    requires
        3 <= limit,
        limit + 2 <= usize::MAX,
    ensures
        r.0.wf(),
        r.0.limit == limit,
        is_isqrt(r.0.sqrt_limit as int, limit as int),
        r.0.low <= limit,
        r.0.total_segments >= 1,
        is_divisor_base(r.1@, r.0.base_bound()),
{
    let s = isqrt(limit);
    assert(s >= 1 && (s + 2 <= limit || s == 1)) by (nonlinear_arith)
        requires
            limit >= 3,
            s * s <= limit,
            limit < (s + 1) * (s + 1),
            s >= 0,
    ;
    let layout = SegmentLayout::new(limit, s);
    assert(layout.low <= limit);
    assert(layout.total_segments >= 1) by {
        assert((limit - layout.low + 524288) / 524288 >= 1);
    }
    let base = find_primes_v2(layout.low - 1);
    (layout, base)
}

/// Variation 5: the trial-divisor base, then each segment in turn, all
/// gathered into one ascending list of the primes up to `limit`.
pub fn find_primes_v5(limit: usize) -> (r: Vec<usize>)
    requires
        limit + 2 <= usize::MAX,
    ensures
        lists_primes_in(r@, 0, limit as int),
{
    if limit < 3 {
        return find_primes_v2(limit);
    }
    let (layout, small_primes) = layout_and_base(limit);
    let mut all = copy_values(&small_primes);
    let mut scratch = all_set(SEGMENT_WORDS);
    let mut idx: usize = 0;
    while idx < layout.total_segments
        invariant
            layout.wf(),
            layout.limit == limit,
            layout.total_segments >= 1,
            is_divisor_base(small_primes@, layout.base_bound()),
            scratch.len() == SEGMENT_WORDS,
            idx <= layout.total_segments,
            idx < layout.total_segments ==> lists_primes_in(all@, 0, layout.seg_low(idx as int) - 1),
            idx == layout.total_segments ==> lists_primes_in(all@, 0, limit as int),
        decreases layout.total_segments - idx,
    {
        let SegmentPrimes { primes: mut seg, segment_id: _ } = layout.compute_segment(
            idx,
            &small_primes,
            &mut scratch,
        );
        proof {
            layout.lemma_contiguous(idx as int);
            layout.lemma_segment_in_range(idx as int);
            lemma_listing_concat(
                all@,
                seg@,
                0,
                layout.seg_low(idx as int) - 1,
                layout.seg_high(idx as int),
            );
        }
        all.append(&mut seg);
        idx = idx + 1;
    }
    all
}

/// The primes up to `limit`, ascending, by the sieve variation named
/// (1 to 5); any other number falls back to variation 1.
pub fn find_primes(limit: usize, variation: u32) -> (r: Vec<usize>)
    requires
        limit + 64 <= usize::MAX,
    ensures
        lists_primes_in(r@, 0, limit as int),
{
    match variation {
        1 => find_primes_v1(limit),
        2 => find_primes_v2(limit),
        3 => find_primes_v3(limit),
        4 => find_primes_v4(limit),
        5 => find_primes_v5(limit),
        _ => find_primes_v1(limit),
    }
}

} // verus!

