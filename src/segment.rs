//! The segmented sieve: one fixed-size, odd-only, bit-packed window over
//! `[low, high]`, sieved with the trial-divisor base.
use vstd::prelude::*;
use crate::bits::{bit_at, clear_bit, marked_value, push_marked, set_all};
use crate::prime::{
    is_prime, lists_primes_in, lemma_multiple_gap, lemma_multiple_step,
    lemma_no_small_prime_factor,
};

verus! {

/// Odd numbers held by one segment buffer (one bit each).
pub const SEGMENT_SIZE_BITS: usize = 32 * 1024 * 8;

/// Numbers spanned by one segment.
pub const SEGMENT_SIZE_NUMBERS: usize = SEGMENT_SIZE_BITS * 2;

/// Words of one segment buffer.
pub const SEGMENT_WORDS: usize = SEGMENT_SIZE_BITS / 64;

/// `n` is divisible by none of `sp[1..k)`.
pub open spec fn survives(sp: Seq<usize>, k: int, n: int) -> bool {
    forall|t: int| 1 <= t < k ==> #[trigger] (n % (sp[t] as int)) != 0
}

/// A trial-divisor base for `s`: the primes up to `s`, ascending.
pub open spec fn is_divisor_base(sp: Seq<usize>, s: int) -> bool {
    lists_primes_in(sp, 0, s)
}

proof fn lemma_odd_prime(p: int)
    requires
        is_prime(p),
        p != 2,
    ensures
        p % 2 == 1,
        p >= 3,
{
    assert(p % 2 != 0);
}

/// A divisor base for `s >= 2` starts with 2 (for `s < 2` it is empty), and
/// every entry after the first is an odd number from 3 to `s`.
proof fn lemma_base_shape(sp: Seq<usize>, s: int)
    requires
        is_divisor_base(sp, s),
        s >= 1,
    ensures
        s >= 2 ==> sp.len() >= 1 && sp[0] == 2,
        s < 2 ==> sp.len() == 0,
        forall|t: int| 1 <= t < sp.len() ==> #[trigger] sp[t] >= 3 && sp[t] % 2 == 1 && sp[t] <= s,
{
    assert(is_prime(2)) by {
        assert forall|d: int| 2 <= d < 2 implies #[trigger] (2int % d) != 0 by {}
    }
    if s >= 2 {
        assert(sp.contains(2int as usize));
        let k = choose|k: int| 0 <= k < sp.len() && sp[k] == 2usize;
        if k > 0 {
            assert(sp[0] < sp[k]);
            assert(is_prime(sp[0] as int));
        }
    } else if sp.len() > 0 {
        assert(is_prime(sp[0] as int));
    }
    assert forall|t: int| 1 <= t < sp.len() implies #[trigger] sp[t] >= 3 && sp[t] % 2 == 1 && sp[t]
        <= s by {
        assert(sp[0] < sp[t]);
        assert(is_prime(sp[t] as int));
        lemma_odd_prime(sp[t] as int);
    }
}

/// The least odd multiple of the odd `p` that is at least `low`.
pub(crate) fn first_odd_multiple(low: u128, p: u128) -> (r: u128)
    requires
        p >= 3,
        p % 2 == 1,
        low <= 0xffff_ffff_ffff_ffff,
        p <= 0xffff_ffff_ffff_ffff,
    ensures
        r % p == 0,
        r % 2 == 1,
        low <= r < low + 2 * p,
        forall|n: int| low <= n < r && n % 2 == 1 ==> #[trigger] (n % (p as int)) != 0,
{
    let q = (low + p - 1) / p;
    proof {
        vstd::arithmetic::div_mod::lemma_fundamental_div_mod((low + p - 1) as int, p as int);
        vstd::arithmetic::div_mod::lemma_mod_multiples_basic(q as int, p as int);
        vstd::arithmetic::mul::lemma_mul_is_commutative(q as int, p as int);
    }
    let c = q * p;
    assert(low <= c && c < low + p);
    assert forall|n: int| low <= n < c implies #[trigger] (n % (p as int)) != 0 by {
        if n % (p as int) == 0 {
            lemma_multiple_gap(c as int, n, p as int);
        }
    }
    if c % 2 == 0 {
        proof {
            lemma_multiple_step(c as int, p as int, 1);
            assert forall|n: int| low <= n < c + p && n % 2 == 1 implies #[trigger] (n % (p as int))
                != 0 by {
                if n > c && n % (p as int) == 0 {
                    lemma_multiple_gap(n, c as int, p as int);
                }
            }
        }
        c + p
    } else {
        c
    }
}

/// Crosses out of `bits`, where bit `idx` stands for `low + 2 * idx`, the
/// odd multiples of `p` in `[from, high]`.
pub fn cross_out(bits: &mut Vec<u64>, low: usize, high: usize, p: usize, from: usize)
    requires
        low % 2 == 1,
        low <= high,
        low <= from,
        (high - low) / 2 < 64 * old(bits).len(),
        p >= 3,
        p % 2 == 1,
    ensures
        final(bits).len() == old(bits).len(),
        forall|idx: int|
            0 <= idx <= (high - low) / 2 ==> #[trigger] bit_at(final(bits)@, idx) == (bit_at(
                old(bits)@,
                idx,
            ) && !((low + 2 * idx) % (p as int) == 0 && low + 2 * idx >= from)),
{
    let ghost seg0 = bits@;
    let mut start: u128 = first_odd_multiple(from as u128, p as u128);
    let step: u128 = 2 * (p as u128);
    let ghost top: int = if from > high { from as int } else { high as int };
    assert forall|idx: int| 0 <= idx <= (high - low) / 2 implies #[trigger] bit_at(bits@, idx) == (
    bit_at(seg0, idx) && !((low + 2 * idx) % (p as int) == 0 && from <= low + 2 * idx < start)) by {
        let x = low + 2 * idx;
        if from <= x < start {
            assert(x % 2 == 1);
        }
    }
    while start <= high as u128
        invariant
            bits.len() == seg0.len(),
            low % 2 == 1,
            low <= high,
            low <= from <= start,
            (high - low) / 2 < 64 * seg0.len(),
            p >= 3,
            p % 2 == 1,
            step == 2 * p,
            start % (p as u128) == 0,
            start % 2 == 1,
            top >= high,
            start <= top + 2 * p,
            forall|idx: int|
                0 <= idx <= (high - low) / 2 ==> #[trigger] bit_at(bits@, idx) == (bit_at(
                    seg0,
                    idx,
                ) && !((low + 2 * idx) % (p as int) == 0 && from <= low + 2 * idx < start)),
        decreases top + 2 * p - start,
    {
        let idx = ((start - low as u128) / 2) as usize;
        let ghost before = bits@;
        clear_bit(bits, idx);
        proof {
            lemma_multiple_step(start as int, p as int, 2);
            assert forall|i: int| 0 <= i <= (high - low) / 2 implies #[trigger] bit_at(bits@, i)
                == (bit_at(seg0, i) && !((low + 2 * i) % (p as int) == 0 && from <= low + 2 * i
                < start + step)) by {
                let n = low + 2 * i;
                if start < n < start + step && n % (p as int) == 0 {
                    lemma_multiple_gap(n, start as int, p as int);
                    if n > start + p {
                        lemma_multiple_step(start as int, p as int, 1);
                        lemma_multiple_gap(n, start + p, p as int);
                    }
                }
                assert(bit_at(bits@, i) == (i != idx && bit_at(before, i)));
            }
        }
        start = start + step;
    }
}

/// `segment` marks the primes of `[low, high]`: bit `idx` is set exactly
/// when `low + 2 * idx` is prime, for every `low + 2 * idx <= high`.
pub open spec fn marks_primes(segment: Seq<u64>, low: int, high: int) -> bool {
    forall|idx: int| 0 <= idx <= (high - low) / 2 ==> #[trigger] bit_at(segment, idx) == is_prime(
        low + 2 * idx,
    )
}

/// Sieves the odd numbers of `[low, high]` in `segment` with the odd
/// entries of the trial-divisor base `small_primes` (the primes up to
/// `sqrt_limit`): afterwards the set bits mark the primes of `[low, high]`.
pub fn mark_segment(
    low: usize,
    high: usize,
    small_primes: &Vec<usize>,
    sqrt_limit: usize,
    segment: &mut Vec<u64>,
)
    requires
        old(segment).len() == SEGMENT_WORDS,
        is_divisor_base(small_primes@, sqrt_limit as int),
        sqrt_limit >= 1,
        sqrt_limit < low,
        low % 2 == 1,
        low <= high,
        high - low < SEGMENT_SIZE_NUMBERS,
        high < (sqrt_limit + 1) * (sqrt_limit + 1),
        high + 2 <= usize::MAX,
    ensures
        final(segment).len() == SEGMENT_WORDS,
        marks_primes(final(segment)@, low as int, high as int),
{
    set_all(segment);
    let ghost sp = small_primes@;
    proof {
        lemma_base_shape(sp, sqrt_limit as int);
    }
    let count = (high - low) / 2 + 1;
    let mut k: usize = 1;
    while k < small_primes.len()
        invariant
            segment.len() == SEGMENT_WORDS,
            sp == small_primes@,
            1 <= k,
            sp.len() == 0 ==> k == 1,
            sp.len() == 0 || k <= sp.len(),
            count == (high - low) / 2 + 1,
            low % 2 == 1,
            low <= high,
            high - low < SEGMENT_SIZE_NUMBERS,
            forall|t: int| 1 <= t < sp.len() ==> #[trigger] sp[t] >= 3 && sp[t] % 2 == 1,
            forall|idx: int|
                0 <= idx < count ==> #[trigger] bit_at(segment@, idx) == survives(
                    sp,
                    k as int,
                    low + 2 * idx,
                ),
        decreases sp.len() - k,
    {
        let p = small_primes[k];
        let ghost before = segment@;
        cross_out(segment, low, high, p, low);
        proof {
            assert forall|idx: int| 0 <= idx < count implies #[trigger] bit_at(segment@, idx)
                == survives(sp, k + 1, low + 2 * idx) by {
                assert(bit_at(before, idx) == survives(sp, k as int, low + 2 * idx));
                let n = low + 2 * idx;
                if survives(sp, k as int, n) && n % (p as int) != 0 {
                    assert forall|t: int| 1 <= t < k + 1 implies #[trigger] (n % (sp[t] as int))
                        != 0 by {
                        if t < k {
                            assert(n % (sp[t] as int) != 0);
                        }
                    }
                }
            }
        }
        k = k + 1;
    }
    assert forall|idx: int| 0 <= idx < count implies #[trigger] bit_at(segment@, idx) == survives(
        sp,
        sp.len() as int,
        low + 2 * idx,
    ) by {
        if sp.len() == 0 {
            assert(survives(sp, k as int, low + 2 * idx));
            assert(survives(sp, sp.len() as int, low + 2 * idx));
        } else {
            assert(k == sp.len());
        }
    }
    assert forall|idx: int| 0 <= idx <= (high - low) / 2 implies #[trigger] bit_at(segment@, idx)
        == is_prime(low + 2 * idx) by {
        let n = low + 2 * idx;
        if bit_at(segment@, idx) {
            assert(survives(sp, sp.len() as int, n));
            assert forall|p: int| 2 <= p <= sqrt_limit && is_prime(p) implies #[trigger] (n % p)
                != 0 by {
                if p != 2 {
                    assert(sp.contains(p as usize));
                    let t = choose|t: int| 0 <= t < sp.len() && sp[t] == p as usize;
                    assert(t != 0);
                    assert(n % (sp[t] as int) != 0);
                } else {
                    assert(n % 2 == 1);
                }
            }
            lemma_no_small_prime_factor(n, sqrt_limit as int);
        }
        if is_prime(n) {
            assert forall|t: int| 1 <= t < sp.len() implies #[trigger] (n % (sp[t] as int)) != 0 by {
                assert(sp[t] as int <= sqrt_limit);
                assert(sp[t] as int >= 2);
                assert((sp[t] as int) < n);
            }
            assert(survives(sp, sp.len() as int, n));
        }
    }
}

/// The primes of `[low, high]`, ascending, read off a segment that marks
/// them, lowest set bit first within each word.
pub fn extract_segment(segment: &Vec<u64>, low: usize, high: usize) -> (r: Vec<usize>)
    requires
        segment.len() == SEGMENT_WORDS,
        low % 2 == 1,
        low >= 3,
        low <= high,
        high - low < SEGMENT_SIZE_NUMBERS,
        high + 2 <= usize::MAX,
        marks_primes(segment@, low as int, high as int),
    ensures
        lists_primes_in(r@, low as int, high as int),
{
    let count = (high - low) / 2 + 1;
    let mut out: Vec<usize> = Vec::new();
    push_marked(segment, count, low, &mut out);
    proof {
        let s = out@;
        assert(out@.subrange(0, 0) =~= Seq::<usize>::empty());
        assert(out@.subrange(0, out@.len() as int) == out@);
        assert forall|i: int| 0 <= i < s.len() implies low <= #[trigger] s[i] <= high && is_prime(
            s[i] as int,
        ) by {
            assert(marked_value(segment@, count as int, low as int, 64 * SEGMENT_WORDS, s[i] as int));
        }
        assert forall|n: int| low <= n <= high && is_prime(n) implies #[trigger] s.contains(
            n as usize,
        ) by {
            lemma_odd_prime(n);
            let idx = (n - low) / 2;
            assert(n == low + 2 * idx);
            assert(bit_at(segment@, idx));
        }
    }
    out
}

/// Sieves the odd numbers of `[low, high]` in `segment` with the odd
/// entries of the trial-divisor base `small_primes` (the primes up to
/// `sqrt_limit`), and returns, ascending, the primes of `[low, high]`.
/// `segment` is scratch space, reused from call to call.
pub fn sieve_segment(
    low: usize,
    high: usize,
    small_primes: &Vec<usize>,
    sqrt_limit: usize,
    segment: &mut Vec<u64>,
) -> (r: Vec<usize>)
    requires
        old(segment).len() == SEGMENT_WORDS,
        is_divisor_base(small_primes@, sqrt_limit as int),
        sqrt_limit >= 1,
        sqrt_limit < low,
        low % 2 == 1,
        low <= high,
        high - low < SEGMENT_SIZE_NUMBERS,
        high < (sqrt_limit + 1) * (sqrt_limit + 1),
        high + 2 <= usize::MAX,
    ensures
        final(segment).len() == SEGMENT_WORDS,
        lists_primes_in(r@, low as int, high as int),
{
    mark_segment(low, high, small_primes, sqrt_limit, segment);
    extract_segment(segment, low, high)
}

} // verus!
