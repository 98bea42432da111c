//! Streaming runs: the primes up to a limit, produced batch by batch (the
//! privileged first unit, then each segment) and handed to a channel.
use vstd::prelude::*;
use std::sync::mpsc::Sender;
use crate::bits::{
    all_clear, all_set, bit_at, copy_words, lists_marked, marked_value, push_marked, set_bit,
};
use crate::layout::{first_segment_low, segment_count, SegmentData, SegmentLayout};
use crate::prime::{is_isqrt, is_prime, lists_primes_in, strictly_increasing};
use crate::segment::{
    is_divisor_base, mark_segment, marks_primes, SEGMENT_SIZE_NUMBERS, SEGMENT_WORDS,
};
use crate::segmented::copy_values;
use crate::sieve::{find_primes_v1, find_primes_v2, find_primes_v4};

verus! {

/// `std::sync::mpsc::Sender`, carried through as an opaque value.
#[verifier::external_type_specification]
#[verifier::external_body]
#[verifier::reject_recursive_types(T)]
pub struct ExSender<T>(Sender<T>);

/// Relies on `std::sync::mpsc::Sender::send`: hands `value` to the channel;
/// it fails, returning `false`, only once the receiver is gone.
#[verifier::external_body]
fn send<T>(sender: &Sender<T>, value: T) -> (delivered: bool) {
    sender.send(value).is_ok()
}

/// Number of batches of a run up to `limit` with trial-divisor square root
/// `s`: none below 2, else the privileged unit and one per segment.
pub open spec fn batch_count(limit: int, s: int) -> int {
    if limit < 2 {
        0
    } else {
        1 + segment_count(first_segment_low(s), limit)
    }
}

/// Lowest number covered by batch `k`.
pub open spec fn batch_low(limit: int, s: int, k: int) -> int {
    if k == 0 {
        0
    } else {
        first_segment_low(s) + (k - 1) * SEGMENT_SIZE_NUMBERS
    }
}

/// Highest number covered by batch `k`.
pub open spec fn batch_high(limit: int, s: int, k: int) -> int {
    let h = if k == 0 {
        first_segment_low(s) - 1
    } else {
        batch_low(limit, s, k) + SEGMENT_SIZE_NUMBERS - 1
    };
    if h <= limit {
        h
    } else {
        limit
    }
}

/// The batches of a segmented run, in order.
pub struct PrimeBatches {
    limit: usize,
    layout: SegmentLayout,
    base: Vec<usize>,
    scratch: Vec<u64>,
    emitted: usize,
}

impl PrimeBatches {
    /// The limit of the run.
    pub closed spec fn limit_of(&self) -> int {
        self.limit as int
    }

    /// The square root the run was laid out with.
    pub closed spec fn sqrt_of(&self) -> int {
        self.layout.sqrt_limit as int
    }

    /// How many batches were handed out.
    pub closed spec fn emitted_of(&self) -> int {
        self.emitted as int
    }

    /// The internal state agrees with the run's limit.
    pub closed spec fn wf(&self) -> bool {
        &&& self.limit >= 2 ==> {
            &&& self.layout.wf()
            &&& self.layout.limit == self.limit
            &&& is_divisor_base(self.base@, self.layout.base_bound())
            &&& self.layout.base_bound() <= self.limit
        }
        &&& self.scratch.len() == SEGMENT_WORDS
        &&& self.emitted <= batch_count(self.limit as int, self.layout.sqrt_limit as int)
    }

    /// A run up to `limit`, where `sqrt_limit` is the square root of
    /// `limit` (not looked at for limits up to 2); nothing handed out yet.
    pub fn new(limit: usize, sqrt_limit: usize) -> (r: PrimeBatches)
        requires
            limit + 2 <= usize::MAX,
            limit >= 3 ==> is_isqrt(sqrt_limit as int, limit as int),
        ensures
            r.wf(),
            r.limit_of() == limit,
            limit >= 3 ==> r.sqrt_of() == sqrt_limit,
            limit <= 2 ==> r.sqrt_of() == 1,
            r.emitted_of() == 0,
    {
        let scratch = all_set(SEGMENT_WORDS);
        if limit < 2 {
            let layout = SegmentLayout { limit, sqrt_limit: 1, low: 3, total_segments: 0 };
            return PrimeBatches { limit, layout, base: Vec::new(), scratch, emitted: 0 };
        }
        let sqrt_limit = if limit == 2 {
            1
        } else {
            sqrt_limit
        };
        assert(sqrt_limit >= 1) by (nonlinear_arith)
            requires
                limit >= 2,
                limit < (sqrt_limit + 1) * (sqrt_limit + 1),
        ;
        let layout = SegmentLayout::new(limit, sqrt_limit);
        assert(sqrt_limit + 1 <= limit || sqrt_limit == 1) by (nonlinear_arith)
            requires
                sqrt_limit >= 1,
                sqrt_limit * sqrt_limit <= limit,
        ;
        let base = find_primes_v2(layout.low - 1);
        PrimeBatches { limit, layout, base, scratch, emitted: 0 }
    }

    /// The next batch: the primes of `[batch_low, batch_high]` for the next
    /// index, ascending; `None` once all were handed out.
    pub fn next_batch(&mut self) -> (r: Option<Vec<usize>>)
        requires
            old(self).wf(),
        ensures
            final(self).wf(),
            final(self).limit_of() == old(self).limit_of(),
            final(self).sqrt_of() == old(self).sqrt_of(),
            old(self).emitted_of() < batch_count(old(self).limit_of(), old(self).sqrt_of()) ==> {
                &&& r matches Some(b) && lists_primes_in(
                    b@,
                    batch_low(old(self).limit_of(), old(self).sqrt_of(), old(self).emitted_of()),
                    batch_high(old(self).limit_of(), old(self).sqrt_of(), old(self).emitted_of()),
                )
                &&& final(self).emitted_of() == old(self).emitted_of() + 1
            },
            old(self).emitted_of() >= batch_count(old(self).limit_of(), old(self).sqrt_of()) ==> r
                is None && final(self).emitted_of() == old(self).emitted_of(),
    {
        if self.limit < 2 {
            return None;
        }
        if self.emitted == 0 {
            self.emitted = 1;
            let b = copy_values(&self.base);
            assert(batch_high(self.limit as int, self.layout.sqrt_limit as int, 0)
                == self.layout.base_bound());
            return Some(b);
        }
        if self.emitted - 1 >= self.layout.total_segments {
            return None;
        }
        assert(self.layout.total_segments < usize::MAX) by {
            assert((self.limit - self.layout.low + 524288) / 524288 <= self.limit + 1);
        }
        let idx = self.emitted - 1;
        let seg = self.layout.compute_segment(idx, &self.base, &mut self.scratch);
        self.emitted = self.emitted + 1;
        Some(seg.primes)
    }
}

/// The square root a streaming run is laid out with: the one given, except
/// at limits up to 2, where 1 is used.
pub open spec fn stream_root(limit: int, sqrt_limit: int) -> int {
    if limit <= 2 {
        1
    } else {
        sqrt_limit
    }
}

/// No more segments than numbers: counts of a run stay below its limit.
proof fn lemma_segment_count_bound(low: int, limit: int)
    requires
        low >= 1,
        limit >= 0,
    ensures
        segment_count(low, limit) <= limit,
{
    if limit >= low {
        vstd::arithmetic::div_mod::lemma_fundamental_div_mod(limit - low + 524288, 524288);
        vstd::arithmetic::div_mod::lemma_mod_pos_bound(limit - low + 524288, 524288);
    }
}

/// Variation 6: sends each batch of `PrimeBatches` whole, in order, and
/// stops at the first send the receiver no longer takes. Returns how many
/// batches the channel took, and (as a ghost) every batch handed to it:
/// those taken, plus the one refused if a send failed.
pub fn find_primes_v6_streaming(
    limit: usize,
    sqrt_limit: usize,
    sender: Sender<Vec<usize>>,
) -> (r: (usize, Ghost<Seq<Seq<usize>>>))
    requires
        limit + 2 <= usize::MAX,
        limit >= 3 ==> is_isqrt(sqrt_limit as int, limit as int),
    ensures
        r.0 <= r.1@.len() <= r.0 + 1,
        r.1@.len() <= batch_count(limit as int, stream_root(limit as int, sqrt_limit as int)),
        forall|k: int|
            0 <= k < r.1@.len() ==> lists_primes_in(
                #[trigger] r.1@[k],
                batch_low(limit as int, stream_root(limit as int, sqrt_limit as int), k),
                batch_high(limit as int, stream_root(limit as int, sqrt_limit as int), k),
            ),
        r.0 == r.1@.len() ==> r.1@.len() == batch_count(
            limit as int,
            stream_root(limit as int, sqrt_limit as int),
        ),
{
    let ghost root = stream_root(limit as int, sqrt_limit as int);
    let mut batches = PrimeBatches::new(limit, sqrt_limit);
    let mut sent: usize = 0;
    let ghost mut handed: Seq<Seq<usize>> = Seq::empty();
    proof {
        lemma_segment_count_bound(first_segment_low(root), limit as int);
    }
    loop
        invariant
            batches.wf(),
            batches.limit_of() == limit,
            batches.sqrt_of() == root,
            root == stream_root(limit as int, sqrt_limit as int),
            root >= 1,
            batch_count(limit as int, root) <= limit + 1,
            sent == handed.len(),
            handed.len() == batches.emitted_of(),
            handed.len() <= batch_count(limit as int, root),
            forall|k: int|
                0 <= k < handed.len() ==> lists_primes_in(
                    #[trigger] handed[k],
                    batch_low(limit as int, root, k),
                    batch_high(limit as int, root, k),
                ),
        decreases batch_count(batches.limit_of(), batches.sqrt_of()) - batches.emitted_of(),
    {
        let ghost e = batches.emitted_of();
        match batches.next_batch() {
            Some(batch) => {
                proof {
                    assert(e < batch_count(limit as int, root));
                    assert(lists_primes_in(batch@, batch_low(limit as int, root, e), batch_high(limit as int, root, e)));
                    let h0 = handed;
                    handed = handed.push(batch@);
                    assert(handed[e] == batch@);
                    assert forall|k: int| 0 <= k < handed.len() implies lists_primes_in(
                        #[trigger] handed[k],
                        batch_low(limit as int, root, k),
                        batch_high(limit as int, root, k),
                    ) by {
                        if k < h0.len() {
                            assert(handed[k] == h0[k]);
                        }
                    }
                }
                if !send(&sender, batch) {
                    return (sent, Ghost(handed));
                }
                sent = sent + 1;
            },
            None => {
                return (sent, Ghost(handed));
            },
        }
    }
}

/// `h` is an initial run of the primes up to `limit`: ascending primes, none
/// above `limit`, with every prime up to its last entry present.
pub open spec fn primes_prefix(h: Seq<usize>, limit: int) -> bool {
    &&& strictly_increasing(h)
    &&& forall|i: int| 0 <= i < h.len() ==> is_prime(#[trigger] h[i] as int) && h[i] <= limit
    &&& forall|n: int|
        0 <= n && h.len() > 0 && n <= h.last() && is_prime(n) ==> #[trigger] h.contains(n as usize)
}

proof fn lemma_listing_is_prefix(h: Seq<usize>, limit: int)
    requires
        lists_primes_in(h, 0, limit),
    ensures
        primes_prefix(h, limit),
{
    assert forall|n: int| 0 <= n && h.len() > 0 && n <= h.last() && is_prime(n) implies #[trigger] h.contains(
        n as usize,
    ) by {
        assert(h.last() <= limit);
    }
}

proof fn lemma_prefix_extend(p: Seq<usize>, b: Seq<usize>, c: int, hi: int, i: int, limit: int)
    requires
        lists_primes_in(p, 0, c),
        lists_primes_in(b, c + 1, hi),
        c <= limit,
        hi <= limit,
        0 <= i <= b.len(),
    ensures
        primes_prefix(p + b.take(i), limit),
{
    let t = p + b.take(i);
    assert forall|x: int, y: int| 0 <= x < y < t.len() implies t[x] < t[y] by {
        if y < p.len() {
        } else if x >= p.len() {
            assert(t[x] == b[x - p.len()] && t[y] == b[y - p.len()]);
        } else {
            assert(t[y] == b[y - p.len()]);
        }
    }
    assert forall|j: int| 0 <= j < t.len() implies is_prime(#[trigger] t[j] as int) && t[j] <= limit by {
        if j < p.len() {
            assert(t[j] == p[j]);
        } else {
            assert(t[j] == b[j - p.len()]);
        }
    }
    assert forall|n: int| 0 <= n && t.len() > 0 && n <= t.last() && is_prime(n) implies #[trigger] t.contains(
        n as usize,
    ) by {
        if n <= c {
            assert(p.contains(n as usize));
            let k = choose|k: int| 0 <= k < p.len() && p[k] == n as usize;
            assert(t[k] == p[k]);
        } else {
            if i == 0 {
                assert(t == p);
                assert(p.last() <= c);
            } else {
                assert(t.last() == b[i - 1]);
                assert(b.contains(n as usize));
                let k = choose|k: int| 0 <= k < b.len() && b[k] == n as usize;
                if k > i - 1 {
                    assert(b[i - 1] < b[k]);
                }
                assert(t[p.len() + k] == b[k]);
            }
        }
    }
}

proof fn lemma_increasing_bound(h: Seq<usize>, j: int)
    requires
        strictly_increasing(h),
        0 <= j < h.len(),
    ensures
        h[j] >= j,
    decreases j,
{
    if j > 0 {
        lemma_increasing_bound(h, j - 1);
    }
}

/// Batches follow one another: batch 0 starts at 0, each next one right
/// after the one before, and the last ends at the limit.
proof fn lemma_batches_contiguous(limit: int, s: int, k: int)
    requires
        limit >= 2,
        limit + 2 <= usize::MAX,
        is_isqrt(s, limit),
        0 <= k < batch_count(limit, s),
    ensures
        batch_low(limit, s, 0) == 0,
        k >= 1 ==> batch_low(limit, s, k) == batch_high(limit, s, k - 1) + 1,
        batch_low(limit, s, k) <= batch_high(limit, s, k) + 1,
        k == batch_count(limit, s) - 1 ==> batch_high(limit, s, k) == limit,
{
    assert(s >= 1 && (s + 2 <= limit || s == 1)) by (nonlinear_arith)
        requires
            limit >= 2,
            s * s <= limit,
            limit < (s + 1) * (s + 1),
            s >= 0,
    ;
    let low = first_segment_low(s);
    lemma_segment_count_bound(low, limit);
    let lay = SegmentLayout {
        limit: limit as usize,
        sqrt_limit: s as usize,
        low: low as usize,
        total_segments: segment_count(low, limit) as usize,
    };
    assert(lay.wf());
    assert(SEGMENT_SIZE_NUMBERS == 524288);
    assert(low - 1 <= limit);
    if k >= 1 {
        assert(batch_low(limit, s, k) == lay.seg_low(k - 1));
        assert(batch_high(limit, s, k) == lay.seg_high(k - 1));
        lay.lemma_segment_in_range(k - 1);
        if k >= 2 {
            lay.lemma_contiguous(k - 2);
            assert(batch_high(limit, s, k - 1) == lay.seg_high(k - 2));
        } else {
            assert(lay.seg_low(0) == low + 0 * 524288);
        }
        lay.lemma_contiguous(k - 1);
    } else if batch_count(limit, s) == 1 {
        assert(segment_count(low, limit) == 0);
        if limit >= low {
            assert((limit - low + 524288) / 524288 >= 1);
        }
    }
}

/// Variation 5, streaming: sends the primes up to `limit` one by one, in
/// ascending order, batch after batch, and stops at the first send the
/// receiver no longer takes. Returns how many values the channel took,
/// and (as a ghost) every value handed to it: those taken, plus the one
/// refused if a send failed.
pub fn find_primes_v5_streaming(limit: usize, sender: Sender<usize>) -> (r: (usize, Ghost<Seq<usize>>))
    requires
        limit + 2 <= usize::MAX,
    ensures
        r.0 <= r.1@.len() <= r.0 + 1,
        primes_prefix(r.1@, limit as int),
        r.0 == r.1@.len() ==> lists_primes_in(r.1@, 0, limit as int),
{
    let s = crate::prime::isqrt(limit);
    let mut batches = PrimeBatches::new(limit, s);
    let ghost root = batches.sqrt_of();
    let mut sent: usize = 0;
    let ghost mut handed: Seq<usize> = Seq::empty();
    let ghost mut cover: int = -1;
    loop
        invariant
            batches.wf(),
            batches.limit_of() == limit,
            batches.sqrt_of() == root,
            limit >= 2 ==> is_isqrt(root, limit as int),
            limit + 2 <= usize::MAX,
            sent == handed.len(),
            lists_primes_in(handed, 0, cover),
            cover <= limit,
            batches.emitted_of() == 0 ==> cover == -1,
            batches.emitted_of() >= 1 ==> cover == batch_high(limit as int, root, batches.emitted_of() - 1),
        decreases batch_count(batches.limit_of(), batches.sqrt_of()) - batches.emitted_of(),
    {
        let ghost e = batches.emitted_of();
        match batches.next_batch() {
            Some(batch) => {
                let ghost lo = batch_low(limit as int, root, e);
                let ghost hi = batch_high(limit as int, root, e);
                proof {
                    lemma_batches_contiguous(limit as int, root, e);
                    assert(lo == cover + 1);
                }
                let ghost p = handed;
                let mut i: usize = 0;
                while i < batch.len()
                    invariant
                        i <= batch.len(),
                        lists_primes_in(p, 0, cover),
                        lists_primes_in(batch@, cover + 1, hi),
                        cover <= limit,
                        hi <= limit,
                        limit + 2 <= usize::MAX,
                        handed == p + batch@.take(i as int),
                        sent == handed.len(),
                    decreases batch.len() - i,
                {
                    proof {
                        let t = p + batch@.take(i + 1);
                        assert(t =~= handed.push(batch@[i as int]));
                        handed = t;
                        lemma_prefix_extend(p, batch@, cover, hi, i + 1, limit as int);
                        lemma_increasing_bound(handed, handed.len() - 1);
                    }
                    if !send(&sender, batch[i]) {
                        return (sent, Ghost(handed));
                    }
                    sent = sent + 1;
                    i = i + 1;
                }
                proof {
                    assert(batch@.take(batch.len() as int) =~= batch@);
                    crate::prime::lemma_listing_concat(p, batch@, 0, cover, hi);
                    cover = hi;
                }
            },
            None => {
                proof {
                    if limit >= 2 {
                        if e >= 1 {
                            lemma_batches_contiguous(limit as int, root, e - 1);
                        }
                        assert(e >= 1);
                    } else {
                        assert forall|n: int| 0 <= n <= limit && is_prime(n) implies #[trigger] handed.contains(
                            n as usize,
                        ) by {}
                    }
                    lemma_listing_is_prefix(handed, limit as int);
                }
                return (sent, Ghost(handed));
            },
        }
    }
}

/// Sends `values` in order, one by one; stops at the first failed send.
/// Returns whether all were delivered.
fn send_each(sender: &Sender<usize>, values: &Vec<usize>) -> (all_sent: bool) {
    let mut i: usize = 0;
    while i < values.len()
        invariant
            i <= values.len(),
        decreases values.len() - i,
    {
        if !send(sender, values[i]) {
            return false;
        }
        i = i + 1;
    }
    true
}

/// Variation 1, streaming: sieves as variation 1, then sends the primes
/// one by one, ascending, until the receiver is gone.
pub fn find_primes_v1_streaming(limit: usize, sender: Sender<usize>)
    requires
        limit < usize::MAX,
{
    let primes = find_primes_v1(limit);
    send_each(&sender, &primes);
}

/// Variation 2, streaming: as variation 1 with the odd-only sieve.
pub fn find_primes_v2_streaming(limit: usize, sender: Sender<usize>) {
    let primes = find_primes_v2(limit);
    send_each(&sender, &primes);
}

/// Variation 3, streaming: the odd-only sieve again; the primes go out in
/// the same ascending order.
pub fn find_primes_v3_streaming(limit: usize, sender: Sender<usize>) {
    let primes = find_primes_v2(limit);
    send_each(&sender, &primes);
}

/// Variation 4, streaming: as variation 1 with the odd-only bit sieve.
pub fn find_primes_v4_streaming(limit: usize, sender: Sender<usize>)
    requires
        limit + 2 <= usize::MAX,
{
    let primes = find_primes_v4(limit);
    send_each(&sender, &primes);
}

/// Streams the primes up to `limit` by the variation named (1 to 5); any
/// other number falls back to variation 1.
pub fn find_primes_streaming(limit: usize, variation: u32, sender: Sender<usize>)
    requires
        limit + 64 <= usize::MAX,
{
    match variation {
        1 => find_primes_v1_streaming(limit, sender),
        2 => find_primes_v2_streaming(limit, sender),
        3 => find_primes_v3_streaming(limit, sender),
        4 => find_primes_v4_streaming(limit, sender),
        5 => {
            find_primes_v5_streaming(limit, sender);
        },
        _ => find_primes_v1_streaming(limit, sender),
    }
}

/// Index of the first entry of `s` above 2 (the length of `s` if none is).
pub open spec fn first_above_two(s: Seq<usize>) -> int
    decreases s.len(),
{
    if s.len() == 0 {
        0
    } else if s[0] > 2 {
        0
    } else {
        1 + first_above_two(s.drop_first())
    }
}

proof fn lemma_first_above_two(s: Seq<usize>, j: int)
    requires
        0 <= j <= s.len(),
        forall|k: int| 0 <= k < j ==> #[trigger] s[k] <= 2,
        j < s.len() ==> s[j] > 2,
    ensures
        first_above_two(s) == j,
    decreases j,
{
    if j > 0 {
        let t = s.drop_first();
        assert forall|k: int| 0 <= k < j - 1 implies #[trigger] t[k] <= 2 by {
            assert(t[k] == s[k + 1]);
        }
        if j < s.len() {
            assert(t[j - 1] == s[j]);
        }
        lemma_first_above_two(t, j - 1);
    }
}

/// Some entry of `primes` from index `from` on lies `2 * i` or `2 * i + 1`
/// above `m`: bit `i` of a packing from `m`.
pub open spec fn packed_at(primes: Seq<usize>, from: int, m: int, i: int) -> bool {
    exists|k: int| from <= k < primes.len() && #[trigger] primes[k] >= m && (primes[k] - m) / 2 == i
}

/// `bits` packs the ascending `primes`: empty for no primes; `[1]` when
/// none is above 2; otherwise bit `i` stands for `m + 2 * i`, `m` the first
/// entry above 2, up to the word holding the last entry. 2 is not encoded.
pub open spec fn packs(bits: Seq<u64>, primes: Seq<usize>) -> bool {
    let j = first_above_two(primes);
    if primes.len() == 0 {
        bits.len() == 0
    } else if j >= primes.len() {
        bits == seq![1u64]
    } else {
        let m = primes[j] as int;
        &&& bits.len() == ((primes.last() - m) / 2 + 64) / 64
        &&& forall|i: int|
            0 <= i < 64 * bits.len() ==> #[trigger] bit_at(bits, i) == packed_at(primes, j, m, i)
    }
}

/// Packs the ascending `primes` into bits from their first entry above 2:
/// bit `i` for that entry plus `2 * i`. A list with nothing above 2 packs
/// to the single word `1`; an empty one to no words.
pub fn pack_primes_to_bits(primes: &Vec<usize>) -> (r: Vec<u64>)
    requires
        strictly_increasing(primes@),
    ensures
        packs(r@, primes@),
{
    let n = primes.len();
    if n == 0 {
        return Vec::new();
    }
    let mut j: usize = 0;
    while j < n && primes[j] <= 2
        invariant
            n == primes.len(),
            j <= n,
            forall|k: int| 0 <= k < j ==> #[trigger] primes@[k] <= 2,
        decreases n - j,
    {
        j = j + 1;
    }
    proof {
        lemma_first_above_two(primes@, j as int);
    }
    if j == n {
        let one: Vec<u64> = vec![1u64];
        assert(one@ =~= seq![1u64]);
        return one;
    }
    let m = primes[j];
    let top = primes[n - 1];
    if j < n - 1 {
        assert(primes@[j as int] < primes@[n - 1]);
    }
    let words = ((top - m) / 2 + 64) / 64;
    let mut bits = all_clear(words);
    let mut k: usize = j;
    while k < n
        invariant
            n == primes.len(),
            j <= k <= n,
            j < n,
            m == primes@[j as int],
            top == primes@[n - 1],
            m <= top,
            bits.len() == words,
            words == ((top - m) / 2 + 64) / 64,
            strictly_increasing(primes@),
            forall|i: int|
                0 <= i < 64 * words ==> #[trigger] bit_at(bits@, i) == exists|t: int|
                    j <= t < k && #[trigger] primes@[t] >= m && (primes@[t] - m) / 2 == i,
        decreases n - k,
    {
        let p = primes[k];
        if k > j {
            assert(primes@[j as int] < primes@[k as int]);
        }
        if k < n - 1 {
            assert(primes@[k as int] < primes@[n - 1]);
        }
        let ghost before = bits@;
        set_bit(&mut bits, (p - m) / 2);
        proof {
            assert forall|i: int| 0 <= i < 64 * words implies #[trigger] bit_at(bits@, i)
                == exists|t: int| j <= t < k + 1 && #[trigger] primes@[t] >= m && (primes@[t] - m)
                / 2 == i by {
                if exists|t: int| j <= t < k && #[trigger] primes@[t] >= m && (primes@[t] - m) / 2 == i {
                    let t = choose|t: int| j <= t < k && #[trigger] primes@[t] >= m && (primes@[t] - m) / 2 == i;
                    assert(j <= t < k + 1);
                }
                if exists|t: int| j <= t < k + 1 && #[trigger] primes@[t] >= m && (primes@[t] - m) / 2 == i {
                    let t = choose|t: int| j <= t < k + 1 && #[trigger] primes@[t] >= m && (primes@[t] - m) / 2 == i;
                }
                if i == (p - m) / 2 {
                    assert(j <= k < k + 1 && primes@[k as int] >= m && (primes@[k as int] - m) / 2 == i);
                }
            }
        }
        k = k + 1;
    }
    assert forall|i: int| 0 <= i < 64 * words implies #[trigger] bit_at(bits@, i) == packed_at(
        primes@,
        j as int,
        m as int,
        i,
    ) by {}
    bits
}

/// How many bits of `data` stand for numbers up to `min(data.high, limit)`.
pub open spec fn unpack_count(data: SegmentData, limit: int) -> int {
    let top = if data.high <= limit {
        data.high as int
    } else {
        limit
    };
    if top < data.low {
        0
    } else {
        let c = (top - data.low) / 2 + 1;
        if c <= 64 * data.bits.len() {
            c
        } else {
            64 * data.bits.len()
        }
    }
}

/// `out` is what unpacking `d` with `limit` gives: the numbers
/// `d.low + 2 * idx` of the set bits `idx`, ascending, up to
/// `min(d.high, limit)`.
pub open spec fn decodes(d: SegmentData, limit: int, out: Seq<usize>) -> bool {
    lists_marked(out, d.bits@, unpack_count(d, limit), d.low as int, 64 * d.bits.len())
}

/// A raw segment that marks the primes of `[low, top]` unpacks to them.
proof fn lemma_marked_decodes(d: SegmentData, limit: int, out: Seq<usize>, top: int)
    requires
        decodes(d, limit, out),
        top == if d.high <= limit {
            d.high as int
        } else {
            limit
        },
        d.low >= 3,
        d.low % 2 == 1,
        d.low <= top,
        (top - d.low) / 2 < 64 * d.bits.len(),
        marks_primes(d.bits@, d.low as int, top),
    ensures
        lists_primes_in(out, d.low as int, top),
{
    let count = unpack_count(d, limit);
    assert forall|i: int| 0 <= i < out.len() implies d.low <= #[trigger] out[i] <= top && is_prime(
        out[i] as int,
    ) by {
        assert(marked_value(d.bits@, count, d.low as int, 64 * d.bits.len(), out[i] as int));
    }
    assert forall|n: int| d.low <= n <= top && is_prime(n) implies #[trigger] out.contains(
        n as usize,
    ) by {
        assert(n % 2 != 0);
        let idx = (n - d.low) / 2;
        assert(n == d.low + 2 * idx);
        assert(bit_at(d.bits@, idx));
    }
}

proof fn lemma_first_above_two_facts(s: Seq<usize>)
    ensures
        0 <= first_above_two(s) <= s.len(),
        forall|k: int| 0 <= k < first_above_two(s) ==> #[trigger] s[k] <= 2,
        first_above_two(s) < s.len() ==> s[first_above_two(s)] > 2,
    decreases s.len(),
{
    if s.len() > 0 && s[0] <= 2 {
        let t = s.drop_first();
        lemma_first_above_two_facts(t);
        assert forall|k: int| 0 <= k < first_above_two(s) implies #[trigger] s[k] <= 2 by {
            if k > 0 {
                assert(s[k] == t[k - 1]);
            }
        }
    }
}

proof fn lemma_three_is_prime()
    ensures
        is_prime(3),
{
    assert forall|d: int| 2 <= d < 3 implies #[trigger] (3int % d) != 0 by {
        assert(d == 2);
    }
}

/// The packed trial-divisor base, sent with `low` 3 and `high` the square
/// root `s`, unpacks to the odd primes up to `min(s, limit)`.
pub proof fn lemma_packed_decodes(d: SegmentData, limit: int, out: Seq<usize>, base: Seq<usize>)
    requires
        d.low == 3,
        d.high >= 0,
        packs(d.bits@, base),
        lists_primes_in(base, 0, d.high as int),
        decodes(d, limit, out),
    ensures
        lists_primes_in(out, 3, if d.high <= limit { d.high as int } else { limit }),
{
    let s = d.high as int;
    let top = if d.high <= limit { d.high as int } else { limit };
    let count = unpack_count(d, limit);
    let j = first_above_two(base);
    lemma_first_above_two_facts(base);
    lemma_three_is_prime();
    if base.len() == 0 || j >= base.len() {
        if s >= 3 {
            assert(base.contains(3int as usize));
            let k = choose|k: int| 0 <= k < base.len() && base[k] == 3usize;
            assert(k >= j);
        }
        assert(count == 0);
        if out.len() > 0 {
            assert(marked_value(d.bits@, count, 3, 64 * d.bits.len(), out[0] as int));
        }
        assert forall|n: int| 3 <= n <= top && is_prime(n) implies #[trigger] out.contains(n as usize) by {
        }
    } else {
        let m = base[j] as int;
        let last = base.last() as int;
        assert(is_prime(m) && m <= s);
        assert(base.contains(3int as usize));
        let k3 = choose|k: int| 0 <= k < base.len() && base[k] == 3usize;
        if k3 > j {
            assert(base[j] < base[k3]);
        }
        assert(k3 >= j);
        assert(m == 3);
        assert(64 * d.bits.len() >= (last - 3) / 2 + 1);
        assert forall|i: int| 0 <= i < out.len() implies 3 <= #[trigger] out[i] <= top && is_prime(
            out[i] as int,
        ) by {
            let v = out[i] as int;
            assert(marked_value(d.bits@, count, 3, 64 * d.bits.len(), v));
            let idx = (v - 3) / 2;
            assert(packed_at(base, j, 3, idx));
            let t = choose|t: int| j <= t < base.len() && #[trigger] base[t] >= 3 && (base[t] - 3) / 2 == idx;
            assert(is_prime(base[t] as int));
            assert(base[t] % 2 != 0);
            assert(base[t] == v);
        }
        assert forall|n: int| 3 <= n <= top && is_prime(n) implies #[trigger] out.contains(n as usize) by {
            assert(base.contains(n as usize));
            let t = choose|t: int| 0 <= t < base.len() && base[t] == n as usize;
            assert(t >= j);
            if t < base.len() - 1 {
                assert(base[t] < base[base.len() - 1]);
            }
            assert(n % 2 != 0);
            let idx = (n - 3) / 2;
            assert(j <= t < base.len() && base[t] >= 3 && (base[t] - 3) / 2 == idx);
            assert(packed_at(base, j, 3, idx));
            assert(bit_at(d.bits@, idx));
            assert(n == 3 + 2 * idx);
        }
    }
}

/// The numbers a raw segment marks, ascending: `low + 2 * idx` for each set
/// bit `idx`, up to `min(high, limit)`.
pub fn unpack_segment(data: &SegmentData, limit: usize) -> (r: Vec<usize>)
    requires
        limit + 2 <= usize::MAX,
        64 * data.bits.len() <= usize::MAX,
    ensures
        lists_marked(
            r@,
            data.bits@,
            unpack_count(*data, limit as int),
            data.low as int,
            64 * data.bits.len(),
        ),
        ({
            let top = if data.high <= limit {
                data.high as int
            } else {
                limit as int
            };
            data.low >= 3 && data.low % 2 == 1 && data.low <= top && (top - data.low) / 2 < 64
                * data.bits.len() && marks_primes(data.bits@, data.low as int, top)
                ==> lists_primes_in(r@, data.low as int, top)
        }),
{
    let top = if data.high <= limit {
        data.high
    } else {
        limit
    };
    let mut out: Vec<usize> = Vec::new();
    if top < data.low {
        return out;
    }
    let c = (top - data.low) / 2 + 1;
    let count = if c <= 64 * data.bits.len() {
        c
    } else {
        64 * data.bits.len()
    };
    push_marked(&data.bits, count, data.low, &mut out);
    proof {
        assert(out@.subrange(0, 0) =~= Seq::<usize>::empty());
        assert(out@.subrange(0, out@.len() as int) == out@);
        let s = out@;
        if data.low >= 3 && data.low % 2 == 1 && (top - data.low) / 2 < 64 * data.bits.len()
            && marks_primes(data.bits@, data.low as int, top as int) {
            assert forall|i: int| 0 <= i < s.len() implies data.low <= #[trigger] s[i] <= top
                && is_prime(s[i] as int) by {
                assert(marked_value(
                    data.bits@,
                    count as int,
                    data.low as int,
                    64 * data.bits.len(),
                    s[i] as int,
                ));
            }
            assert forall|n: int| data.low <= n <= top && is_prime(n) implies #[trigger] s.contains(
                n as usize,
            ) by {
                assert(n % 2 != 0);
                let idx = (n - data.low) / 2;
                assert(n == data.low + 2 * idx);
                assert(bit_at(data.bits@, idx));
            }
        }
    }
    out
}

/// Number of raw messages of a run up to `limit` with square root `s`: the
/// packed trial-divisor base, then one per segment.
pub open spec fn raw_count(limit: int, s: int) -> int {
    1 + segment_count(first_segment_low(s), limit)
}

/// Lowest number raw message `k` stands for.
pub open spec fn raw_low(limit: int, s: int, k: int) -> int {
    if k == 0 {
        3
    } else {
        batch_low(limit, s, k)
    }
}

/// Highest number raw message `k` stands for (once unpacked with `limit`).
pub open spec fn raw_high(limit: int, s: int, k: int) -> int {
    if k == 0 {
        if s <= limit {
            s
        } else {
            limit
        }
    } else {
        batch_high(limit, s, k)
    }
}

/// The raw messages of a segmented run, in order: first the odd primes up
/// to the square root, packed (`low` 3, `high` the square root); then each
/// segment sieved, as its bounds and bits.
pub struct RawSegments {
    limit: usize,
    sqrt_limit: usize,
    layout: SegmentLayout,
    first: Vec<usize>,
    base: Vec<usize>,
    segment: Vec<u64>,
    emitted: usize,
}

impl RawSegments {
    /// The limit of the run.
    pub closed spec fn limit_of(&self) -> int {
        self.limit as int
    }

    /// The square root of the limit.
    pub closed spec fn sqrt_of(&self) -> int {
        self.sqrt_limit as int
    }

    /// How many messages were handed out.
    pub closed spec fn emitted_of(&self) -> int {
        self.emitted as int
    }

    /// The primes up to the square root, which the first message packs.
    pub closed spec fn first_primes(&self) -> Seq<usize> {
        self.first@
    }

    /// The internal state agrees with the run's limit.
    pub closed spec fn wf(&self) -> bool {
        &&& is_isqrt(self.sqrt_limit as int, self.limit as int)
        &&& self.limit + 2 <= usize::MAX
        &&& lists_primes_in(self.first@, 0, self.sqrt_limit as int)
        &&& self.segment.len() == SEGMENT_WORDS
        &&& self.emitted <= raw_count(self.limit as int, self.sqrt_limit as int)
        &&& self.limit >= 2 ==> {
            &&& self.layout.wf()
            &&& self.layout.limit == self.limit
            &&& self.layout.sqrt_limit == self.sqrt_limit
            &&& is_divisor_base(self.base@, self.layout.base_bound())
        }
        &&& self.limit < 2 ==> segment_count(first_segment_low(self.sqrt_limit as int), self.limit as int)
            == 0
    }

    /// The messages of a run up to `limit`, `sqrt_limit` its square root;
    /// nothing handed out yet.
    pub fn new(limit: usize, sqrt_limit: usize) -> (r: RawSegments)
        requires
            limit + 2 <= usize::MAX,
            is_isqrt(sqrt_limit as int, limit as int),
        ensures
            r.wf(),
            r.limit_of() == limit,
            r.sqrt_of() == sqrt_limit,
            r.emitted_of() == 0,
            lists_primes_in(r.first_primes(), 0, sqrt_limit as int),
    {
        let segment = all_set(SEGMENT_WORDS);
        let first = find_primes_v2(sqrt_limit);
        if limit < 2 {
            assert(sqrt_limit <= 1) by (nonlinear_arith)
                requires
                    sqrt_limit * sqrt_limit <= limit,
                    limit < 2,
            ;
            assert(sqrt_limit == 0 ==> limit == 0) by (nonlinear_arith)
                requires
                    limit < (sqrt_limit + 1) * (sqrt_limit + 1),
            ;
            assert(first_segment_low(sqrt_limit as int) > limit);
            let layout = SegmentLayout { limit, sqrt_limit: 1, low: 3, total_segments: 0 };
            return RawSegments { limit, sqrt_limit, layout, first, base: Vec::new(), segment, emitted: 0 };
        }
        assert(sqrt_limit >= 1) by (nonlinear_arith)
            requires
                limit >= 2,
                limit < (sqrt_limit + 1) * (sqrt_limit + 1),
        ;
        let layout = SegmentLayout::new(limit, sqrt_limit);
        let base = find_primes_v2(layout.low - 1);
        RawSegments { limit, sqrt_limit, layout, first, base, segment, emitted: 0 }
    }

    /// The next message, as `raw_low`, `raw_high` and the message index say;
    /// `None` once all were handed out.
    pub fn next_raw(&mut self) -> (r: Option<SegmentData>)
        requires
            old(self).wf(),
        ensures
            final(self).wf(),
            final(self).limit_of() == old(self).limit_of(),
            final(self).sqrt_of() == old(self).sqrt_of(),
            final(self).first_primes() == old(self).first_primes(),
            ({
                let l = old(self).limit_of();
                let s = old(self).sqrt_of();
                let e = old(self).emitted_of();
                &&& e == 0 ==> {
                    &&& r matches Some(d) && d.low == 3 && d.high == s && packs(
                        d.bits@,
                        old(self).first_primes(),
                    ) && forall|out: Seq<usize>|
                        decodes(d, l, out) ==> lists_primes_in(out, raw_low(l, s, 0), raw_high(l, s, 0))
                    &&& final(self).emitted_of() == 1
                }
                &&& 1 <= e < raw_count(l, s) ==> {
                    &&& r matches Some(d) && d.low == raw_low(l, s, e) && d.high == raw_high(l, s, e)
                        && d.bits.len() == SEGMENT_WORDS && marks_primes(d.bits@, d.low as int, d.high as int)
                        && forall|out: Seq<usize>|
                        decodes(d, l, out) ==> lists_primes_in(out, raw_low(l, s, e), raw_high(l, s, e))
                    &&& final(self).emitted_of() == e + 1
                }
                &&& e >= raw_count(l, s) ==> r is None && final(self).emitted_of() == e
            }),
    {
        if self.emitted == 0 {
            self.emitted = 1;
            let bits = pack_primes_to_bits(&self.first);
            let d = SegmentData { bits, low: 3, high: self.sqrt_limit };
            assert forall|out: Seq<usize>| decodes(d, self.limit as int, out) implies lists_primes_in(
                out,
                raw_low(self.limit as int, self.sqrt_limit as int, 0),
                raw_high(self.limit as int, self.sqrt_limit as int, 0),
            ) by {
                lemma_packed_decodes(d, self.limit as int, out, self.first@);
            }
            return Some(d);
        }
        if self.limit < 2 || self.emitted - 1 >= self.layout.total_segments {
            return None;
        }
        let idx = self.emitted - 1;
        let (low, high) = self.layout.bounds(idx);
        let b = self.layout.low - 1;
        assert(high < (b + 1) * (b + 1)) by (nonlinear_arith)
            requires
                high <= self.layout.limit,
                self.layout.limit < (self.layout.sqrt_limit + 1) * (self.layout.sqrt_limit + 1),
                b >= self.layout.sqrt_limit,
                self.layout.sqrt_limit >= 1,
        ;
        mark_segment(low, high, &self.base, b, &mut self.segment);
        let d = SegmentData { bits: copy_words(&self.segment), low, high };
        assert((high - low) / 2 < 64 * SEGMENT_WORDS);
        assert(self.layout.total_segments < usize::MAX) by {
            assert((self.limit - self.layout.low + 524288) / 524288 <= self.limit + 1);
        }
        assert forall|out: Seq<usize>| decodes(d, self.limit as int, out) implies lists_primes_in(
            out,
            low as int,
            high as int,
        ) by {
            lemma_marked_decodes(d, self.limit as int, out, high as int);
        }
        self.emitted = self.emitted + 1;
        Some(d)
    }
}

/// The values of the messages `ds`, one after another.
pub open spec fn flat(ds: Seq<Seq<usize>>) -> Seq<usize>
    decreases ds.len(),
{
    if ds.len() == 0 {
        Seq::empty()
    } else {
        flat(ds.drop_last()) + ds.last()
    }
}

proof fn lemma_raw_prefix(limit: int, s: int, ds: Seq<Seq<usize>>, lay: SegmentLayout, k: int)
    requires
        1 <= k <= ds.len(),
        ds.len() == raw_count(limit, s),
        lay.wf(),
        lay.low == first_segment_low(s),
        lay.limit == limit,
        lay.sqrt_limit == s,
        s >= 1,
        s <= limit,
        forall|j: int|
            0 <= j < ds.len() ==> lists_primes_in(#[trigger] ds[j], raw_low(limit, s, j), raw_high(limit, s, j)),
    ensures
        k == 1 ==> lists_primes_in(seq![2usize] + flat(ds.take(k)), 0, if s >= 2 { s } else { 2 }),
        k > 1 ==> lists_primes_in(seq![2usize] + flat(ds.take(k)), 0, lay.seg_high(k - 2)),
    decreases k,
{
    let cover1 = if s >= 2 { s } else { 2 };
    let two = seq![2usize];
    if k == 1 {
        crate::prime::lemma_two_is_prime();
        assert(lists_primes_in(two, 0, 2)) by {
            assert(two[0] == 2);
            assert(two.contains(2int as usize));
        }
        assert(ds.take(1).drop_last() =~= Seq::<Seq<usize>>::empty());
        assert(ds.take(1).last() == ds[0]);
        assert(flat(ds.take(1)) == flat(ds.take(1).drop_last()) + ds.take(1).last());
        assert(flat(Seq::<Seq<usize>>::empty()) == Seq::<usize>::empty());
        assert(flat(ds.take(1)) =~= ds[0]);
        if s >= 2 {
            crate::prime::lemma_listing_concat(two, ds[0], 0, 2, s);
        } else {
            if ds[0].len() > 0 {
                assert(3 <= ds[0][0] <= 1);
            }
            assert(two + ds[0] =~= two);
        }
    } else {
        lemma_raw_prefix(limit, s, ds, lay, k - 1);
        let i = k - 2;
        assert(i < lay.total_segments);
        lay.lemma_segment_in_range(i);
        let prev = two + flat(ds.take(k - 1));
        if k == 2 {
            assert(SEGMENT_SIZE_NUMBERS == 524288);
            assert(lay.seg_low(0) == lay.low + 0 * 524288);
            assert(lay.seg_low(0) == lay.low);
            if cover1 + 1 < lay.seg_low(0) {
                assert(!is_prime(cover1 + 1)) by {
                    assert((cover1 + 1) % 2 == 0);
                }
                crate::prime::lemma_listing_extend(prev, 0, cover1, cover1 + 1);
            }
        } else {
            lay.lemma_contiguous(k - 3);
        }
        let m2 = lay.seg_low(i) - 1;
        assert(lists_primes_in(prev, 0, m2));
        assert(lists_primes_in(ds[k - 1], lay.seg_low(i), lay.seg_high(i)));
        crate::prime::lemma_listing_concat(prev, ds[k - 1], 0, m2, lay.seg_high(i));
        assert(ds.take(k).drop_last() =~= ds.take(k - 1));
        assert(ds.take(k).last() == ds[k - 1]);
        assert(two + flat(ds.take(k)) =~= prev + ds[k - 1]);
    }
}

/// A whole raw run decodes to the primes up to the limit: 2, then the
/// unpacked messages in the order they were sent, ascending throughout.
pub proof fn lemma_raw_run_decodes(limit: int, s: int, ds: Seq<Seq<usize>>)
    requires
        limit >= 2,
        limit + 2 <= usize::MAX,
        is_isqrt(s, limit),
        ds.len() == raw_count(limit, s),
        forall|k: int|
            0 <= k < ds.len() ==> lists_primes_in(#[trigger] ds[k], raw_low(limit, s, k), raw_high(limit, s, k)),
    ensures
        lists_primes_in(seq![2usize] + flat(ds), 0, limit),
{
    assert(s >= 1 && (s + 1 <= limit || s == 1) && s <= limit) by (nonlinear_arith)
        requires
            limit >= 2,
            s * s <= limit,
            limit < (s + 1) * (s + 1),
            s >= 0,
    ;
    let low = first_segment_low(s);
    let lay = SegmentLayout {
        limit: limit as usize,
        sqrt_limit: s as usize,
        low: low as usize,
        total_segments: segment_count(low, limit) as usize,
    };
    assert(segment_count(low, limit) <= limit + 1) by {
        assert((limit - low + 524288) / 524288 <= limit + 1);
    }
    assert(lay.wf());
    lemma_raw_prefix(limit, s, ds, lay, ds.len() as int);
    assert(ds.take(ds.len() as int) =~= ds);
    if ds.len() == 1 {
        assert(segment_count(low, limit) == 0);
        if limit >= low {
            assert((limit - low + 524288) / 524288 >= 1);
        }
        assert(s >= 2 ==> s + 2 <= s * s) by (nonlinear_arith);
        assert(limit == 2);
    } else {
        lay.lemma_contiguous(ds.len() - 2);
    }
}

/// `d` is raw message `k` of a run up to `limit` with square root `s`: its
/// bounds, and what it unpacks to.
pub open spec fn raw_message(d: SegmentData, limit: int, s: int, k: int) -> bool {
    &&& d.low == raw_low(limit, s, k)
    &&& k == 0 ==> d.high == s
    &&& k >= 1 ==> d.high == raw_high(limit, s, k) && d.bits.len() == SEGMENT_WORDS && marks_primes(
        d.bits@,
        d.low as int,
        d.high as int,
    )
    &&& forall|out: Seq<usize>|
        #[trigger] decodes(d, limit, out) ==> lists_primes_in(out, raw_low(limit, s, k), raw_high(limit, s, k))
}

/// Variation 7: sends the raw messages of the run in order (see
/// `RawSegments`) for the receiver to unpack, and stops at the first send
/// the receiver no longer takes. Returns how many messages the channel
/// took, and (as a ghost) every message handed to it: those taken, plus
/// the one refused if a send failed.
pub fn find_primes_v7_streaming(
    limit: usize,
    sqrt_limit: usize,
    sender: Sender<SegmentData>,
) -> (r: (usize, Ghost<Seq<SegmentData>>))
    requires
        limit + 2 <= usize::MAX,
        is_isqrt(sqrt_limit as int, limit as int),
    ensures
        r.0 <= r.1@.len() <= r.0 + 1,
        r.1@.len() <= raw_count(limit as int, sqrt_limit as int),
        forall|k: int|
            0 <= k < r.1@.len() ==> raw_message(#[trigger] r.1@[k], limit as int, sqrt_limit as int, k),
        r.0 == r.1@.len() ==> r.1@.len() == raw_count(limit as int, sqrt_limit as int),
{
    let mut raw = RawSegments::new(limit, sqrt_limit);
    let mut sent: usize = 0;
    let ghost mut handed: Seq<SegmentData> = Seq::empty();
    proof {
        lemma_segment_count_bound(first_segment_low(sqrt_limit as int), limit as int);
    }
    loop
        invariant
            raw.wf(),
            raw.limit_of() == limit,
            raw.sqrt_of() == sqrt_limit,
            raw_count(limit as int, sqrt_limit as int) <= limit + 1,
            sent == handed.len(),
            handed.len() == raw.emitted_of(),
            handed.len() <= raw_count(limit as int, sqrt_limit as int),
            forall|k: int|
                0 <= k < handed.len() ==> raw_message(#[trigger] handed[k], limit as int, sqrt_limit as int, k),
        decreases raw_count(raw.limit_of(), raw.sqrt_of()) - raw.emitted_of(),
    {
        let ghost e = raw.emitted_of();
        match raw.next_raw() {
            Some(d) => {
                proof {
                    assert(e < raw_count(limit as int, sqrt_limit as int));
                    assert(raw_message(d, limit as int, sqrt_limit as int, e));
                    let h0 = handed;
                    handed = handed.push(d);
                    assert forall|k: int| 0 <= k < handed.len() implies raw_message(
                        #[trigger] handed[k],
                        limit as int,
                        sqrt_limit as int,
                        k,
                    ) by {
                        if k < h0.len() {
                            assert(handed[k] == h0[k]);
                        }
                    }
                }
                if !send(&sender, d) {
                    return (sent, Ghost(handed));
                }
                sent = sent + 1;
            },
            None => {
                return (sent, Ghost(handed));
            },
        }
    }
}

} // verus!

