//! Properties of a whole segmented run, stated over the contracts of its
//! parts: what the privileged unit and the segments hold together, how ids
//! are shared among consumers, why each consumer's output ascends, and why
//! a run's output does not depend on scheduling.
use vstd::prelude::*;
use crate::encode::{binary_records, widen};
use crate::layout::{route, SegmentLayout};
use crate::prime::{is_prime, lists_primes_in, strictly_increasing};
use crate::segment::{is_divisor_base, SEGMENT_SIZE_NUMBERS};

verus! {

/// `n` is one of the values of `s`.
pub open spec fn holds(s: Seq<usize>, n: int) -> bool {
    exists|i: int| 0 <= i < s.len() && s[i] == n
}

/// Each entry of `segs` is the result the segment of the same index must
/// have: its primes, ascending.
pub open spec fn segments_exact(layout: SegmentLayout, segs: Seq<Seq<usize>>) -> bool {
    &&& segs.len() == layout.total_segments
    &&& forall|i: int|
        0 <= i < segs.len() ==> lists_primes_in(
            #[trigger] segs[i],
            layout.seg_low(i),
            layout.seg_high(i),
        )
}

/// The segment that holds `n`, for `low <= n <= limit`.
pub open spec fn segment_of(layout: SegmentLayout, n: int) -> int {
    (n - layout.low) / (SEGMENT_SIZE_NUMBERS as int)
}

/// Partition: every number of `[low, limit]` lies in segment
/// `segment_of(n)`, which exists, and in no other segment.
pub proof fn lemma_segments_partition(layout: SegmentLayout, n: int)
    requires
        layout.wf(),
        layout.low <= n <= layout.limit,
    ensures
        0 <= segment_of(layout, n) < layout.total_segments,
        layout.seg_low(segment_of(layout, n)) <= n <= layout.seg_high(segment_of(layout, n)),
        forall|j: int|
            0 <= j < layout.total_segments && j != segment_of(layout, n) ==> !(layout.seg_low(j)
                <= n <= #[trigger] layout.seg_high(j)),
{
    let i = segment_of(layout, n);
    let d = n - layout.low;
    let range = layout.limit - layout.low + 1;
    vstd::arithmetic::div_mod::lemma_fundamental_div_mod(d, 524288);
    vstd::arithmetic::div_mod::lemma_mod_pos_bound(d, 524288);
    vstd::arithmetic::div_mod::lemma_fundamental_div_mod(range - 1 + 524288, 524288);
    vstd::arithmetic::div_mod::lemma_mod_pos_bound(range - 1 + 524288, 524288);
    assert(i >= 0 && i < layout.total_segments);
    assert forall|j: int|
        0 <= j < layout.total_segments && j != i implies !(layout.seg_low(j) <= n
        <= #[trigger] layout.seg_high(j)) by {
        if j < i {
            assert(layout.seg_low(j) + 524288 <= layout.seg_low(i));
        } else {
            assert(layout.seg_low(i) + 524288 <= layout.seg_low(j));
        }
    }
}

/// Union: the trial-divisor base (the privileged first unit) together with
/// the segment results holds exactly the primes up to the limit; each of
/// them in exactly one place.
pub proof fn lemma_union_is_all_primes(
    layout: SegmentLayout,
    base: Seq<usize>,
    segs: Seq<Seq<usize>>,
    n: int,
)
    requires
        layout.wf(),
        layout.limit >= 2,
        is_divisor_base(base, layout.base_bound()),
        segments_exact(layout, segs),
    ensures
        (holds(base, n) || exists|i: int| 0 <= i < segs.len() && holds(#[trigger] segs[i], n)) <==> (0
            <= n <= layout.limit && is_prime(n)),
        holds(base, n) ==> forall|i: int| 0 <= i < segs.len() ==> !holds(#[trigger] segs[i], n),
        forall|i: int, j: int|
            0 <= i < segs.len() && 0 <= j < segs.len() && i != j && holds(#[trigger] segs[i], n)
                ==> !holds(#[trigger] segs[j], n),
{
    if holds(base, n) {
        let k = choose|k: int| 0 <= k < base.len() && base[k] == n;
        assert(base[k] <= layout.base_bound());
        assert(layout.sqrt_limit + 1 <= layout.limit || layout.sqrt_limit == 1) by (nonlinear_arith)
            requires
                layout.sqrt_limit >= 1,
                layout.sqrt_limit * layout.sqrt_limit <= layout.limit,
        ;
        assert(layout.base_bound() <= layout.limit);
        assert forall|i: int| 0 <= i < segs.len() implies !holds(#[trigger] segs[i], n) by {
            layout.lemma_segment_in_range(i);
            if holds(segs[i], n) {
                let m = choose|m: int| 0 <= m < segs[i].len() && segs[i][m] == n;
                assert(segs[i][m] >= layout.seg_low(i));
            }
        }
    }
    if exists|i: int| 0 <= i < segs.len() && holds(#[trigger] segs[i], n) {
        let i = choose|i: int| 0 <= i < segs.len() && holds(#[trigger] segs[i], n);
        let m = choose|m: int| 0 <= m < segs[i].len() && segs[i][m] == n;
        assert(lists_primes_in(segs[i], layout.seg_low(i), layout.seg_high(i)));
        assert(is_prime(segs[i][m] as int));
        layout.lemma_segment_in_range(i);
    }
    if 0 <= n <= layout.limit && is_prime(n) {
        if n <= layout.base_bound() {
            assert(base.contains(n as usize));
        } else {
            lemma_segments_partition(layout, n);
            let i = segment_of(layout, n);
            assert(lists_primes_in(segs[i], layout.seg_low(i), layout.seg_high(i)));
            assert(segs[i].contains(n as usize));
            assert(holds(segs[i], n));
        }
    }
    assert forall|i: int, j: int|
        0 <= i < segs.len() && 0 <= j < segs.len() && i != j && holds(#[trigger] segs[i], n)
            implies !holds(#[trigger] segs[j], n) by {
        let m = choose|m: int| 0 <= m < segs[i].len() && segs[i][m] == n;
        assert(lists_primes_in(segs[i], layout.seg_low(i), layout.seg_high(i)));
        layout.lemma_segment_in_range(i);
        if holds(segs[j], n) {
            let q = choose|q: int| 0 <= q < segs[j].len() && segs[j][q] == n;
            assert(lists_primes_in(segs[j], layout.seg_low(j), layout.seg_high(j)));
            lemma_segments_partition(layout, n);
        }
    }
}

/// Routing: every segment id goes to exactly one of `k` consumers, and it
/// is a whole number of strides above that consumer's first id.
pub proof fn lemma_route_exact(segment_id: int, k: int)
    requires
        segment_id >= 1,
        k >= 1,
    ensures
        0 <= route(segment_id, k) < k,
        (segment_id - (route(segment_id, k) + 1)) % k == 0,
        forall|c: int|
            0 <= c < k && c != route(segment_id, k) ==> #[trigger] ((segment_id - (c + 1)) % k) != 0,
{
    let r = route(segment_id, k);
    vstd::arithmetic::div_mod::lemma_fundamental_div_mod(segment_id - 1, k);
    vstd::arithmetic::div_mod::lemma_mod_pos_bound(segment_id - 1, k);
    let q = (segment_id - 1) / k;
    assert(segment_id - (r + 1) == k * q);
    vstd::arithmetic::div_mod::lemma_mod_multiples_basic(q, k);
    vstd::arithmetic::mul::lemma_mul_is_commutative(k, q);
    assert forall|c: int| 0 <= c < k && c != r implies #[trigger] ((segment_id - (c + 1)) % k) != 0 by {
        if (segment_id - (c + 1)) % k == 0 {
            vstd::arithmetic::div_mod::lemma_fundamental_div_mod(segment_id - (c + 1), k);
            let q2 = (segment_id - (c + 1)) / k;
            assert(k * q - k * q2 == c - r);
            assert(k * (q - q2) == c - r) by (nonlinear_arith)
                requires
                    k * q - k * q2 == c - r,
            ;
            assert(false) by (nonlinear_arith)
                requires
                    k * (q - q2) == c - r,
                    -k < c - r < k,
                    c != r,
                    k >= 1,
            ;
        }
    }
}

/// The values of the segments `ids[0], ids[1], ...`, in that order.
pub open spec fn concat_of(segs: Seq<Seq<usize>>, ids: Seq<int>) -> Seq<usize>
    decreases ids.len(),
{
    if ids.len() == 0 {
        Seq::empty()
    } else {
        concat_of(segs, ids.drop_last()) + segs[ids.last()]
    }
}

proof fn lemma_concat_bounded(layout: SegmentLayout, segs: Seq<Seq<usize>>, ids: Seq<int>)
    requires
        layout.wf(),
        segments_exact(layout, segs),
        forall|m: int| 0 <= m < ids.len() ==> 0 <= #[trigger] ids[m] < segs.len(),
        forall|a: int, b: int| 0 <= a < b < ids.len() ==> ids[a] < ids[b],
    ensures
        strictly_increasing(concat_of(segs, ids)),
        ids.len() > 0 ==> forall|t: int|
            0 <= t < concat_of(segs, ids).len() ==> #[trigger] concat_of(segs, ids)[t]
                <= layout.seg_high(ids.last()),
    decreases ids.len(),
{
    if ids.len() > 0 {
        let front = ids.drop_last();
        lemma_concat_bounded(layout, segs, front);
        let a = concat_of(segs, front);
        let last = ids.last();
        let b = segs[last];
        let c = concat_of(segs, ids);
        assert(c == a + b);
        assert(lists_primes_in(b, layout.seg_low(last), layout.seg_high(last)));
        layout.lemma_segment_in_range(last);
        assert(SEGMENT_SIZE_NUMBERS == 524288);
        if front.len() > 0 {
            let prev = front.last();
            assert(prev < last);
            layout.lemma_segment_in_range(prev);
            assert(layout.seg_high(prev) < layout.seg_low(last));
        }
        assert forall|x: int, y: int| 0 <= x < y < c.len() implies c[x] < c[y] by {
            if y < a.len() {
            } else if x >= a.len() {
                assert(c[x] == b[x - a.len()] && c[y] == b[y - a.len()]);
            } else {
                assert(c[y] == b[y - a.len()]);
                assert(b[y - a.len()] >= layout.seg_low(last));
            }
        }
        assert forall|t: int| 0 <= t < c.len() implies #[trigger] c[t] <= layout.seg_high(last) by {
            if t < a.len() {
                assert(c[t] == a[t]);
            } else {
                assert(c[t] == b[t - a.len()]);
            }
        }
    }
}

/// Order: a consumer that writes its segments in increasing index order
/// writes strictly increasing values.
pub proof fn lemma_consumer_output_ascending(
    layout: SegmentLayout,
    segs: Seq<Seq<usize>>,
    ids: Seq<int>,
)
    requires
        layout.wf(),
        segments_exact(layout, segs),
        forall|m: int| 0 <= m < ids.len() ==> 0 <= #[trigger] ids[m] < segs.len(),
        forall|a: int, b: int| 0 <= a < b < ids.len() ==> ids[a] < ids[b],
    ensures
        strictly_increasing(concat_of(segs, ids)),
{
    lemma_concat_bounded(layout, segs, ids);
}

/// Two exact listings of the same range are the same sequence.
pub proof fn lemma_listing_unique(a: Seq<usize>, b: Seq<usize>, lo: int, hi: int)
    requires
        lists_primes_in(a, lo, hi),
        lists_primes_in(b, lo, hi),
    ensures
        a == b,
{
    assert forall|i: int| 0 <= i < a.len() && 0 <= i < b.len() implies a[i] == b[i] by {
        lemma_listing_prefix_equal(a, b, lo, hi, i);
    }
    if a.len() > b.len() {
        let n = b.len() as int;
        assert(lo <= a[n] <= hi && is_prime(a[n] as int));
        assert(b.contains((a[n] as int) as usize));
        let j = choose|j: int| 0 <= j < b.len() && b[j] == a[n];
        lemma_listing_prefix_equal(a, b, lo, hi, j);
    } else if b.len() > a.len() {
        let n = a.len() as int;
        assert(lo <= b[n] <= hi && is_prime(b[n] as int));
        assert(a.contains((b[n] as int) as usize));
        let j = choose|j: int| 0 <= j < a.len() && a[j] == b[n];
        lemma_listing_prefix_equal(a, b, lo, hi, j);
    }
    assert(a =~= b);
}

proof fn lemma_listing_prefix_equal(a: Seq<usize>, b: Seq<usize>, lo: int, hi: int, i: int)
    requires
        lists_primes_in(a, lo, hi),
        lists_primes_in(b, lo, hi),
        0 <= i < a.len(),
        0 <= i < b.len(),
    ensures
        a[i] == b[i],
    decreases i,
{
    if i > 0 {
        lemma_listing_prefix_equal(a, b, lo, hi, i - 1);
    }
    if a[i] < b[i] {
        assert(lo <= a[i] <= hi && is_prime(a[i] as int));
        assert(b.contains((a[i] as int) as usize));
        let j = choose|j: int| 0 <= j < b.len() && b[j] == a[i];
        if j < i {
            lemma_listing_prefix_equal(a, b, lo, hi, j);
        }
    } else if b[i] < a[i] {
        assert(lo <= b[i] <= hi && is_prime(b[i] as int));
        assert(a.contains((b[i] as int) as usize));
        let j = choose|j: int| 0 <= j < a.len() && a[j] == b[i];
        if j < i {
            lemma_listing_prefix_equal(a, b, lo, hi, j);
        }
    }
}

/// Idempotence: any two runs with the same limit, square root and consumer
/// assignment produce the same segment results and so byte-identical
/// binary output for every consumer, however the work was scheduled.
pub proof fn lemma_run_deterministic(
    layout: SegmentLayout,
    segs_a: Seq<Seq<usize>>,
    segs_b: Seq<Seq<usize>>,
    ids: Seq<int>,
)
    requires
        layout.wf(),
        segments_exact(layout, segs_a),
        segments_exact(layout, segs_b),
    ensures
        segs_a == segs_b,
        binary_records(widen(concat_of(segs_a, ids))) == binary_records(
            widen(concat_of(segs_b, ids)),
        ),
{
    assert forall|i: int| 0 <= i < segs_a.len() implies #[trigger] segs_a[i] == segs_b[i] by {
        lemma_listing_unique(segs_a[i], segs_b[i], layout.seg_low(i), layout.seg_high(i));
    }
    assert(segs_a =~= segs_b);
}

} // verus!
