//! Whole-range sieves of Eratosthenes.
use vstd::prelude::*;
use crate::prime::{
    is_prime, is_isqrt, isqrt, lists_primes_in, lemma_divides_trans, lemma_listing_extend,
    lemma_listing_concat, lemma_listing_push, lemma_listing_shrink, lemma_multiple_gap,
    lemma_multiple_step, lemma_no_small_divisor, lemma_two_is_prime,
};
use crate::segment::{cross_out, first_odd_multiple};
use crate::bits::{all_set, bit_at, clear_bit, get_bit, marked_value, push_marked};

verus! {

/// No `d` in `[2, k)` with `d * d <= x` divides `x`.
pub open spec fn no_divisor_below(x: int, k: int) -> bool {
    forall|d: int| 2 <= d < k && d * d <= x ==> #[trigger] (x % d) != 0
}

/// A prime has no divisor below any bound.
proof fn lemma_prime_no_divisor(x: int, k: int)
    requires
        is_prime(x),
    ensures
        no_divisor_below(x, k),
{
    assert forall|d: int| 2 <= d < k && d * d <= x implies #[trigger] (x % d) != 0 by {
        assert(d < x) by (nonlinear_arith)
            requires
                2 <= d,
                d * d <= x,
        ;
    }
}

/// After sieving with every `d <= s`, where `s` is the square root of the
/// limit, the numbers left are the primes.
proof fn lemma_sieved_is_prime(x: int, s: int)
    requires
        2 <= x < (s + 1) * (s + 1),
        s >= 0,
    ensures
        no_divisor_below(x, s + 1) == is_prime(x),
{
    if no_divisor_below(x, s + 1) {
        lemma_no_small_divisor(x, s);
    }
    if is_prime(x) {
        lemma_prime_no_divisor(x, s + 1);
    }
}

/// Sieving with a `d` that is itself not a candidate removes nothing new.
proof fn lemma_composite_step(x: int, i: int)
    requires
        i >= 2,
        !no_divisor_below(i, i),
        no_divisor_below(x, i),
        i * i <= x,
    ensures
        x % i != 0,
{
    let d = choose|d: int| 2 <= d < i && d * d <= i && #[trigger] (i % d) == 0;
    if x % (i as int) == 0 {
        lemma_divides_trans(d, i, x);
        assert(d * d <= x) by (nonlinear_arith)
            requires
                d * d <= i,
                i * i <= x,
                i >= 2,
        ;
    }
}

/// Variation 1: a flag per number from 0 to `limit`, every multiple of each
/// surviving `i` from `i * i` on crossed out.
pub fn find_primes_v1(limit: usize) -> (r: Vec<usize>)
    requires
        limit < usize::MAX,
    ensures
        lists_primes_in(r@, 0, limit as int),
{
    if limit < 2 {
        return Vec::new();
    }
    let mut flags: Vec<bool> = vec![true; limit + 1];
    flags.set(0, false);
    flags.set(1, false);
    let s = isqrt(limit);
    assert(s >= 1) by (nonlinear_arith)
        requires
            limit >= 2,
            limit < (s + 1) * (s + 1),
            s >= 0,
    ;
    let mut i: usize = 2;
    while i <= s
        invariant
            flags.len() == limit + 1,
            2 <= i <= s + 1,
            is_isqrt(s as int, limit as int),
            limit < usize::MAX,
            forall|x: int|
                0 <= x <= limit ==> #[trigger] flags[x] == (x >= 2 && no_divisor_below(x, i as int)),
        decreases s + 1 - i,
    {
        assert(i * i <= limit && i <= limit) by (nonlinear_arith)
            requires
                2 <= i <= s,
                s * s <= limit,
        ;
        if flags[i] {
            let mut j: usize = i * i;
            proof {
                vstd::arithmetic::div_mod::lemma_mod_multiples_basic(i as int, i as int);
            }
            loop
                invariant_except_break
                    forall|x: int|
                        0 <= x <= limit ==> #[trigger] flags[x] == (x >= 2 && no_divisor_below(
                            x,
                            i as int,
                        ) && !(i * i <= x < j && x % (i as int) == 0)),
                invariant
                    flags.len() == limit + 1,
                    2 <= i <= s,
                    i * i <= j <= limit,
                    j % i == 0,
                ensures
                    flags.len() == limit + 1,
                    forall|x: int|
                        0 <= x <= limit ==> #[trigger] flags[x] == (x >= 2 && no_divisor_below(
                            x,
                            i as int,
                        ) && !(i * i <= x && x % (i as int) == 0)),
                decreases limit - j,
            {
                flags.set(j, false);
                if limit - j < i {
                    assert forall|x: int|
                        0 <= x <= limit implies #[trigger] flags[x] == (x >= 2 && no_divisor_below(
                            x,
                            i as int,
                        ) && !(i * i <= x && x % (i as int) == 0)) by {
                        if j < x && x % (i as int) == 0 {
                            lemma_multiple_gap(x, j as int, i as int);
                        }
                    }
                    break;
                }
                proof {
                    lemma_multiple_step(j as int, i as int, 1);
                    assert forall|x: int|
                        0 <= x <= limit implies #[trigger] flags[x] == (x >= 2 && no_divisor_below(
                            x,
                            i as int,
                        ) && !(i * i <= x < j + i && x % (i as int) == 0)) by {
                        if j < x < j + i && x % (i as int) == 0 {
                            lemma_multiple_gap(x, j as int, i as int);
                        }
                    }
                }
                j = j + i;
            }
            assert forall|x: int| 0 <= x <= limit implies #[trigger] flags[x] == (x >= 2
                && no_divisor_below(x, i + 1)) by {
                assert(no_divisor_below(x, i + 1) == (no_divisor_below(x, i as int) && !(i * i <= x
                    && x % (i as int) == 0)));
            }
        } else {
            assert forall|x: int| 0 <= x <= limit implies #[trigger] flags[x] == (x >= 2
                && no_divisor_below(x, i + 1)) by {
                if x >= 2 && no_divisor_below(x, i as int) && i * i <= x {
                    lemma_composite_step(x, i as int);
                }
                assert(no_divisor_below(x, i + 1) == (no_divisor_below(x, i as int) && !(i * i <= x
                    && x % (i as int) == 0)));
            }
        }
        i = i + 1;
    }
    let mut primes: Vec<usize> = Vec::new();
    let mut x: usize = 0;
    while x <= limit
        invariant
            flags.len() == limit + 1,
            x <= limit + 1,
            is_isqrt(s as int, limit as int),
            limit < usize::MAX,
            forall|y: int|
                0 <= y <= limit ==> #[trigger] flags[y] == (y >= 2 && no_divisor_below(y, s + 1)),
            lists_primes_in(primes@, 0, x - 1),
        decreases limit + 1 - x,
    {
        proof {
            if x >= 2 {
                lemma_sieved_is_prime(x as int, s as int);
            }
        }
        if flags[x] {
            proof {
                lemma_listing_push(primes@, 0, x - 1, x);
            }
            primes.push(x);
        } else {
            proof {
                lemma_listing_extend(primes@, 0, x - 1, x as int);
            }
        }
        x = x + 1;
    }
    primes
}

/// No odd `d` in `[3, k)` with `d * d <= x` divides `x`.
pub open spec fn no_odd_divisor_below(x: int, k: int) -> bool {
    forall|d: int| 3 <= d < k && d % 2 == 1 && d * d <= x ==> #[trigger] (x % d) != 0
}

/// For an odd number, sieving with the odd `d <= s` is sieving with all.
proof fn lemma_odd_sieved_is_prime(x: int, s: int, k: int)
    requires
        3 <= x < (s + 1) * (s + 1),
        x % 2 == 1,
        s >= 1,
        k > s,
    ensures
        no_odd_divisor_below(x, k) == is_prime(x),
{
    if no_odd_divisor_below(x, k) {
        assert forall|d: int| 2 <= d <= s && d * d <= x implies #[trigger] (x % d) != 0 by {
            if d % 2 == 0 && x % d == 0 {
                lemma_divides_trans(2, d, x);
            }
        }
        lemma_no_small_divisor(x, s);
    }
    if is_prime(x) {
        assert forall|d: int| 3 <= d < k && d % 2 == 1 && d * d <= x implies #[trigger] (x % d)
            != 0 by {
            assert(d < x) by (nonlinear_arith)
                requires
                    3 <= d,
                    d * d <= x,
            ;
        }
    }
}

/// Sieving with an odd `p` that is itself not a candidate removes nothing new.
proof fn lemma_odd_composite_step(x: int, p: int)
    requires
        p >= 3,
        p % 2 == 1,
        !no_odd_divisor_below(p, p),
        no_odd_divisor_below(x, p),
        p * p <= x,
    ensures
        x % p != 0,
{
    let d = choose|d: int| 3 <= d < p && d % 2 == 1 && d * d <= p && #[trigger] (p % d) == 0;
    if x % p == 0 {
        lemma_divides_trans(d, p, x);
        assert(d * d <= x) by (nonlinear_arith)
            requires
                d * d <= p,
                p * p <= x,
                p >= 3,
        ;
    }
}

/// Clears in `flags`, where entry `j` stands for the odd number
/// `low + 2 * j`, the entries of the odd multiples of `p` from `from` on.
fn cross_out_flags(flags: &mut Vec<bool>, low: usize, p: usize, from: usize)
    requires
        low % 2 == 1,
        p >= 3,
        p % 2 == 1,
        low <= from,
    ensures
        final(flags).len() == old(flags).len(),
        forall|j: int|
            0 <= j < old(flags).len() ==> #[trigger] final(flags)[j] == (old(flags)[j] && !((low
                + 2 * j) % (p as int) == 0 && low + 2 * j >= from)),
{
    let ghost f0 = flags@;
    let n = flags.len();
    let end: u128 = low as u128 + 2 * (n as u128);
    let mut start: u128 = first_odd_multiple(from as u128, p as u128);
    let step: u128 = 2 * (p as u128);
    let ghost top: int = if from > end { from as int } else { end as int };
    assert forall|j: int| 0 <= j < n implies #[trigger] flags[j] == (f0[j] && !((low + 2 * j) % (
        p as int) == 0 && from <= low + 2 * j < start)) by {
        let x = low + 2 * j;
        if from <= x < start {
            assert(x % 2 == 1);
        }
    }
    while start < end
        invariant
            flags.len() == n,
            n == f0.len(),
            end == low + 2 * n,
            low % 2 == 1,
            p >= 3,
            p % 2 == 1,
            low <= from <= start,
            step == 2 * p,
            start % (p as u128) == 0,
            start % 2 == 1,
            top >= end,
            start <= top + 2 * p,
            forall|j: int|
                0 <= j < n ==> #[trigger] flags[j] == (f0[j] && !((low + 2 * j) % (p as int) == 0
                    && from <= low + 2 * j < start)),
        decreases top + 2 * p - start,
    {
        let idx = ((start - low as u128) / 2) as usize;
        flags.set(idx, false);
        proof {
            lemma_multiple_step(start as int, p as int, 2);
            assert forall|j: int| 0 <= j < n implies #[trigger] flags[j] == (f0[j] && !((low + 2
                * j) % (p as int) == 0 && from <= low + 2 * j < start + step)) by {
                let x = low + 2 * j;
                if start < x < start + step && x % (p as int) == 0 {
                    lemma_multiple_gap(x, start as int, p as int);
                    if x > start + p {
                        lemma_multiple_step(start as int, p as int, 1);
                        lemma_multiple_gap(x, start + p, p as int);
                    }
                }
            }
        }
        start = start + step;
    }
}

/// Variation 2: a flag per odd number from 3 to `limit` (entry `j` for
/// `2 * j + 3`); each surviving odd `p` crosses out its odd multiples from
/// `p * p` on. The result starts with 2.
pub fn find_primes_v2(limit: usize) -> (r: Vec<usize>)
    ensures
        lists_primes_in(r@, 0, limit as int),
{
    if limit < 2 {
        return Vec::new();
    }
    proof {
        lemma_two_is_prime();
    }
    let mut primes: Vec<usize> = vec![2];
    assert(primes@[0] == 2);
    if limit == 2 {
        return primes;
    }
    let size = (limit - 1) / 2;
    let mut flags: Vec<bool> = vec![true; size];
    let s = isqrt(limit);
    assert(s >= 1) by (nonlinear_arith)
        requires
            limit >= 3,
            limit < (s + 1) * (s + 1),
            s >= 0,
    ;
    let sq = (s - 1) / 2;
    let mut i: usize = 0;
    while i <= sq
        invariant
            flags.len() == size,
            size == (limit - 1) / 2,
            limit >= 3,
            i <= sq + 1,
            sq == (s - 1) / 2,
            is_isqrt(s as int, limit as int),
            s >= 1,
            forall|j: int|
                0 <= j < size ==> #[trigger] flags[j] == no_odd_divisor_below(2 * j + 3, 2 * i + 3),
        decreases sq + 1 - i,
    {
        assert(s <= limit && s < 0x1_0000_0000) by (nonlinear_arith)
            requires
                s * s <= limit,
                s >= 1,
                limit <= 0xffff_ffff_ffff_ffff,
        ;
        assert(s + 2 <= limit) by (nonlinear_arith)
            requires
                s * s <= limit,
                s >= 1,
                limit >= 3,
        ;
        assert(2 * i + 3 <= s + 2);
        let p = 2 * i + 3;
        assert((p as u128) * (p as u128) < 0x1_0000_0000_0000_0000_0000) by (nonlinear_arith)
            requires
                p <= 0x1_0000_0002,
        ;
        if i < size && flags[i] {
            let ghost before = flags@;
            if (p as u128) * (p as u128) <= limit as u128 {
                assert(p * p >= 9) by (nonlinear_arith)
                    requires
                        p >= 3,
                ;
                cross_out_flags(&mut flags, 3, p, p * p);
            }
            assert forall|j: int| 0 <= j < size implies #[trigger] flags[j] == no_odd_divisor_below(
                2 * j + 3,
                2 * i + 5,
            ) by {
                let x = 2 * j + 3;
                assert(before[j] == no_odd_divisor_below(x, p as int));
                if !(p * p <= limit) {
                    assert(!(p * p <= x));
                }
                assert(no_odd_divisor_below(x, p + 2) == (no_odd_divisor_below(x, p as int) && !(x
                    % (p as int) == 0 && x >= p * p)));
            }
        } else {
            assert forall|j: int| 0 <= j < size implies #[trigger] flags[j] == no_odd_divisor_below(
                2 * j + 3,
                2 * i + 5,
            ) by {
                let x = 2 * j + 3;
                if no_odd_divisor_below(x, p as int) && p * p <= x {
                    if i < size {
                        lemma_odd_composite_step(x, p as int);
                    } else {
                        assert(p * p > x) by (nonlinear_arith)
                            requires
                                p >= 2 * size + 3,
                                x < 2 * size + 3,
                                x >= 3,
                        ;
                    }
                }
                assert(no_odd_divisor_below(x, p + 2) == (no_odd_divisor_below(x, p as int) && !(x
                    % (p as int) == 0 && x >= p * p)));
            }
        }
        i = i + 1;
    }
    let mut j: usize = 0;
    while j < size
        invariant
            flags.len() == size,
            size == (limit - 1) / 2,
            j <= size,
            limit >= 3,
            is_isqrt(s as int, limit as int),
            s >= 1,
            i == (s - 1) / 2 + 1,
            forall|k: int|
                0 <= k < size ==> #[trigger] flags[k] == no_odd_divisor_below(2 * k + 3, 2 * i + 3),
            lists_primes_in(primes@, 0, 2 * j + 2),
        decreases size - j,
    {
        let x = 2 * j + 3;
        proof {
            lemma_odd_sieved_is_prime(x as int, s as int, 2 * i + 3);
        }
        if flags[j] {
            proof {
                lemma_listing_push(primes@, 0, 2 * j + 2, x);
            }
            primes.push(x);
        } else {
            proof {
                lemma_listing_extend(primes@, 0, 2 * j + 2, x as int);
            }
        }
        proof {
            assert(!is_prime(x + 1)) by {
                assert((x + 1) % 2 == 0);
            }
            lemma_listing_extend(primes@, 0, x as int, x + 1);
        }
        j = j + 1;
    }
    proof {
        if 2 * size + 2 > limit {
            assert(!is_prime(2 * size + 2)) by {
                assert((2 * size + 2) % 2 == 0);
            }
            lemma_listing_shrink(primes@, 0, 2 * size + 2);
        }
    }
    primes
}

/// Variation 4: one bit per odd number from 3 to `limit` (bit `i` for
/// `2 * i + 3`), sieved like variation 2, and read out word by word by the
/// lowest set bit. The result starts with 2.
pub fn find_primes_v4(limit: usize) -> (r: Vec<usize>)
    requires
        limit + 2 <= usize::MAX,
    ensures
        lists_primes_in(r@, 0, limit as int),
{
    if limit < 2 {
        return Vec::new();
    }
    proof {
        lemma_two_is_prime();
    }
    let mut primes: Vec<usize> = vec![2];
    assert(primes@[0] == 2);
    if limit == 2 {
        return primes;
    }
    let odd_count = (limit - 1) / 2;
    let words = (odd_count + 63) / 64;
    let mut bits = all_set(words);
    let s = isqrt(limit);
    assert(s >= 1 && s + 2 <= limit && s < 0x1_0000_0000) by (nonlinear_arith)
        requires
            limit >= 3,
            s * s <= limit,
            limit < (s + 1) * (s + 1),
            limit <= 0xffff_ffff_ffff_ffff,
            s >= 0,
    ;
    let sq = (s - 1) / 2;
    let mut i: usize = 0;
    while i <= sq
        invariant
            bits.len() == words,
            words == (odd_count + 63) / 64,
            odd_count == (limit - 1) / 2,
            limit >= 3,
            limit + 2 <= usize::MAX,
            i <= sq + 1,
            sq == (s - 1) / 2,
            is_isqrt(s as int, limit as int),
            s >= 1,
            s + 2 <= limit,
            s < 0x1_0000_0000,
            forall|j: int|
                0 <= j < odd_count ==> #[trigger] bit_at(bits@, j) == no_odd_divisor_below(
                    2 * j + 3,
                    2 * i + 3,
                ),
        decreases sq + 1 - i,
    {
        assert(2 * i + 3 <= s + 2);
        let p = 2 * i + 3;
        assert((p as u128) * (p as u128) < 0x1_0000_0000_0000_0000_0000) by (nonlinear_arith)
            requires
                p <= 0x1_0000_0002,
        ;
        if i < odd_count && get_bit(&bits, i) {
            let ghost before = bits@;
            if (p as u128) * (p as u128) <= limit as u128 {
                assert(p * p >= 9) by (nonlinear_arith)
                    requires
                        p >= 3,
                ;
                cross_out(&mut bits, 3, limit, p, p * p);
            }
            assert forall|j: int| 0 <= j < odd_count implies #[trigger] bit_at(bits@, j)
                == no_odd_divisor_below(2 * j + 3, 2 * i + 5) by {
                let x = 2 * j + 3;
                assert(bit_at(before, j) == no_odd_divisor_below(x, p as int));
                if !(p * p <= limit) {
                    assert(!(p * p <= x));
                }
                assert(no_odd_divisor_below(x, p + 2) == (no_odd_divisor_below(x, p as int) && !(x
                    % (p as int) == 0 && x >= p * p)));
            }
        } else {
            assert forall|j: int| 0 <= j < odd_count implies #[trigger] bit_at(bits@, j)
                == no_odd_divisor_below(2 * j + 3, 2 * i + 5) by {
                let x = 2 * j + 3;
                if no_odd_divisor_below(x, p as int) && p * p <= x {
                    if i < odd_count {
                        lemma_odd_composite_step(x, p as int);
                    } else {
                        assert(p * p > x) by (nonlinear_arith)
                            requires
                                p >= 2 * odd_count + 3,
                                x < 2 * odd_count + 3,
                                x >= 3,
                        ;
                    }
                }
                assert(no_odd_divisor_below(x, p + 2) == (no_odd_divisor_below(x, p as int) && !(x
                    % (p as int) == 0 && x >= p * p)));
            }
        }
        i = i + 1;
    }
    let ghost head = primes@;
    assert(64 * words >= odd_count && 64 * words <= odd_count + 63);
    push_marked(&bits, odd_count, 3, &mut primes);
    proof {
        let tail = primes@.subrange(1, primes@.len() as int);
        let top = 2 * odd_count + 1;
        assert forall|j: int| 0 <= j < odd_count implies #[trigger] bit_at(bits@, j) == is_prime(
            2 * j + 3,
        ) by {
            lemma_odd_sieved_is_prime(2 * j + 3, s as int, 2 * i + 3);
        }
        assert forall|k: int| 0 <= k < tail.len() implies 3 <= #[trigger] tail[k] <= top && is_prime(
            tail[k] as int,
        ) by {
            assert(marked_value(bits@, odd_count as int, 3, 64 * words, tail[k] as int));
        }
        assert forall|n: int| 3 <= n <= top && is_prime(n) implies #[trigger] tail.contains(
            n as usize,
        ) by {
            assert(n % 2 != 0);
            let j = (n - 3) / 2;
            assert(n == 2 * j + 3);
            assert(bit_at(bits@, j));
            assert(tail.contains((3 + 2 * j) as usize));
        }
        assert(lists_primes_in(tail, 3, top));
        assert(lists_primes_in(head, 0, 2)) by {
            assert(head.contains(2usize)) by {
                assert(head[0] == 2);
            }
        }
        lemma_listing_concat(head, tail, 0, 2, top);
        assert(head + tail == primes@);
        if top < limit {
            assert(!is_prime(limit as int)) by {
                assert(limit % 2 == 0);
            }
            lemma_listing_extend(primes@, 0, top, limit as int);
        }
    }
    primes
}

/// Variation 3: variation 1 with one bit per number, 64 to a word.
pub fn find_primes_v3(limit: usize) -> (r: Vec<usize>)
    requires
        limit + 64 <= usize::MAX,
    ensures
        lists_primes_in(r@, 0, limit as int),
{
    if limit < 2 {
        return Vec::new();
    }
    let words = (limit + 64) / 64;
    let mut flags: Vec<u64> = all_set(words);
    assert(64 * words >= limit + 1);
    clear_bit(&mut flags, 0);
    clear_bit(&mut flags, 1);
    let s = isqrt(limit);
    assert(s >= 1) by (nonlinear_arith)
        requires
            limit >= 2,
            limit < (s + 1) * (s + 1),
            s >= 0,
    ;
    let mut i: usize = 2;
    while i <= s
        invariant
            flags.len() == words,
            64 * words >= limit + 1,
            2 <= i <= s + 1,
            is_isqrt(s as int, limit as int),
            limit < usize::MAX,
            forall|x: int|
                0 <= x <= limit ==> #[trigger] bit_at(flags@, x) == (x >= 2 && no_divisor_below(x, i as int)),
        decreases s + 1 - i,
    {
        assert(i * i <= limit && i <= limit) by (nonlinear_arith)
            requires
                2 <= i <= s,
                s * s <= limit,
        ;
        if get_bit(&flags, i) {
            let mut j: usize = i * i;
            proof {
                vstd::arithmetic::div_mod::lemma_mod_multiples_basic(i as int, i as int);
            }
            loop
                invariant_except_break
                    forall|x: int|
                        0 <= x <= limit ==> #[trigger] bit_at(flags@, x) == (x >= 2 && no_divisor_below(
                            x,
                            i as int,
                        ) && !(i * i <= x < j && x % (i as int) == 0)),
                invariant
                    flags.len() == words,
            64 * words >= limit + 1,
                    2 <= i <= s,
                    i * i <= j <= limit,
                    j % i == 0,
                ensures
                    flags.len() == words,
            64 * words >= limit + 1,
                    forall|x: int|
                        0 <= x <= limit ==> #[trigger] bit_at(flags@, x) == (x >= 2 && no_divisor_below(
                            x,
                            i as int,
                        ) && !(i * i <= x && x % (i as int) == 0)),
                decreases limit - j,
            {
                clear_bit(&mut flags, j);
                if limit - j < i {
                    assert forall|x: int|
                        0 <= x <= limit implies #[trigger] bit_at(flags@, x) == (x >= 2 && no_divisor_below(
                            x,
                            i as int,
                        ) && !(i * i <= x && x % (i as int) == 0)) by {
                        if j < x && x % (i as int) == 0 {
                            lemma_multiple_gap(x, j as int, i as int);
                        }
                    }
                    break;
                }
                proof {
                    lemma_multiple_step(j as int, i as int, 1);
                    assert forall|x: int|
                        0 <= x <= limit implies #[trigger] bit_at(flags@, x) == (x >= 2 && no_divisor_below(
                            x,
                            i as int,
                        ) && !(i * i <= x < j + i && x % (i as int) == 0)) by {
                        if j < x < j + i && x % (i as int) == 0 {
                            lemma_multiple_gap(x, j as int, i as int);
                        }
                    }
                }
                j = j + i;
            }
            assert forall|x: int| 0 <= x <= limit implies #[trigger] bit_at(flags@, x) == (x >= 2
                && no_divisor_below(x, i + 1)) by {
                assert(no_divisor_below(x, i + 1) == (no_divisor_below(x, i as int) && !(i * i <= x
                    && x % (i as int) == 0)));
            }
        } else {
            assert forall|x: int| 0 <= x <= limit implies #[trigger] bit_at(flags@, x) == (x >= 2
                && no_divisor_below(x, i + 1)) by {
                if x >= 2 && no_divisor_below(x, i as int) && i * i <= x {
                    lemma_composite_step(x, i as int);
                }
                assert(no_divisor_below(x, i + 1) == (no_divisor_below(x, i as int) && !(i * i <= x
                    && x % (i as int) == 0)));
            }
        }
        i = i + 1;
    }
    let mut primes: Vec<usize> = Vec::new();
    let mut x: usize = 0;
    while x <= limit
        invariant
            flags.len() == words,
            64 * words >= limit + 1,
            x <= limit + 1,
            is_isqrt(s as int, limit as int),
            limit < usize::MAX,
            forall|y: int|
                0 <= y <= limit ==> #[trigger] bit_at(flags@, y) == (y >= 2 && no_divisor_below(y, s + 1)),
            lists_primes_in(primes@, 0, x - 1),
        decreases limit + 1 - x,
    {
        proof {
            if x >= 2 {
                lemma_sieved_is_prime(x as int, s as int);
            }
        }
        if get_bit(&flags, x) {
            proof {
                lemma_listing_push(primes@, 0, x - 1, x);
            }
            primes.push(x);
        } else {
            proof {
                lemma_listing_extend(primes@, 0, x - 1, x as int);
            }
        }
        x = x + 1;
    }
    primes
}

} // verus!



