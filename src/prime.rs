//! What a prime is, what a listing of the primes in a range is, and the
//! arithmetic facts the sieves rest on.
use vstd::prelude::*;

verus! {

/// `n` is prime: at least 2 and no divisor strictly between 1 and `n`.
pub open spec fn is_prime(n: int) -> bool {
    n >= 2 && forall|d: int| 2 <= d < n ==> #[trigger] (n % d) != 0
}

/// `s` is strictly increasing.
pub open spec fn strictly_increasing(s: Seq<usize>) -> bool {
    forall|i: int, j: int| 0 <= i < j < s.len() ==> s[i] < s[j]
}

/// `s` lists, in ascending order, exactly the primes `n` with `lo <= n <= hi`.
pub open spec fn lists_primes_in(s: Seq<usize>, lo: int, hi: int) -> bool {
    &&& strictly_increasing(s)
    &&& forall|i: int| 0 <= i < s.len() ==> lo <= #[trigger] s[i] <= hi && is_prime(s[i] as int)
    &&& forall|n: int| lo <= n <= hi && is_prime(n) ==> #[trigger] s.contains(n as usize)
}

/// `r` is the integer square root of `n`.
pub open spec fn is_isqrt(r: int, n: int) -> bool {
    r >= 0 && r * r <= n && n < (r + 1) * (r + 1)
}

/// Divisibility is transitive.
pub proof fn lemma_divides_trans(a: int, b: int, c: int)
    requires
        a > 0,
        b > 0,
        b % a == 0,
        c % b == 0,
    ensures
        c % a == 0,
{
    vstd::arithmetic::div_mod::lemma_fundamental_div_mod(b, a);
    vstd::arithmetic::div_mod::lemma_fundamental_div_mod(c, b);
    let q1 = b / a;
    let q2 = c / b;
    assert(c == a * (q1 * q2)) by (nonlinear_arith)
        requires
            b == a * q1,
            c == b * q2,
    ;
    vstd::arithmetic::div_mod::lemma_mod_multiples_basic(q1 * q2, a);
    vstd::arithmetic::mul::lemma_mul_is_commutative(a, q1 * q2);
}

/// A number of at least 2 that is not prime has a prime factor whose square
/// does not exceed it.
pub proof fn lemma_prime_factor(n: int) -> (p: int)
    requires
        n >= 2,
        !is_prime(n),
    ensures
        is_prime(p),
        n % p == 0,
        p * p <= n,
        2 <= p < n,
    decreases n,
{
    let d = choose|d: int| 2 <= d < n && #[trigger] (n % d) == 0;
    vstd::arithmetic::div_mod::lemma_fundamental_div_mod(n, d);
    let e = n / d;
    assert(e >= 2 && e < n) by (nonlinear_arith)
        requires
            n == d * e,
            2 <= d < n,
    ;
    assert(n % e == 0) by {
        vstd::arithmetic::div_mod::lemma_mod_multiples_basic(d, e);
    }
    let m = if d <= e { d } else { e };
    assert(m * m <= n) by (nonlinear_arith)
        requires
            n == d * e,
            m == d || m == e,
            m <= d,
            m <= e,
            d >= 2,
            e >= 2,
    ;
    if is_prime(m) {
        m
    } else {
        let q = lemma_prime_factor(m);
        lemma_divides_trans(q, m, n);
        assert(q * q <= n) by (nonlinear_arith)
            requires
                q * q <= m,
                m * m <= n,
                m >= 2,
        ;
        q
    }
}

/// A number in `[2, (s + 1)^2)` with no prime factor up to `s` is prime.
pub proof fn lemma_no_small_prime_factor(n: int, s: int)
    requires
        2 <= n < (s + 1) * (s + 1),
        s >= 0,
        forall|p: int| 2 <= p <= s && is_prime(p) ==> #[trigger] (n % p) != 0,
    ensures
        is_prime(n),
{
    if !is_prime(n) {
        let p = lemma_prime_factor(n);
        assert(p <= s) by (nonlinear_arith)
            requires
                p * p < (s + 1) * (s + 1),
                p >= 0,
                s >= 0,
        ;
    }
}

/// A number in `[2, (s + 1)^2)` with no divisor `d` in `[2, s]` with
/// `d * d <= n` is prime.
pub proof fn lemma_no_small_divisor(n: int, s: int)
    requires
        2 <= n < (s + 1) * (s + 1),
        s >= 0,
        forall|d: int| 2 <= d <= s && d * d <= n ==> #[trigger] (n % d) != 0,
    ensures
        is_prime(n),
{
    if !is_prime(n) {
        let p = lemma_prime_factor(n);
        assert(p <= s) by (nonlinear_arith)
            requires
                p * p < (s + 1) * (s + 1),
                p >= 0,
                s >= 0,
        ;
    }
}

/// A listing stays exact when its upper end moves past numbers none of
/// which is prime.
pub proof fn lemma_listing_extend(s: Seq<usize>, lo: int, hi: int, hi2: int)
    requires
        lists_primes_in(s, lo, hi),
        hi <= hi2,
        forall|n: int| hi < n <= hi2 ==> !#[trigger] is_prime(n),
    ensures
        lists_primes_in(s, lo, hi2),
{
}

/// A listing stays exact when its upper end drops below a number that is
/// not prime.
pub proof fn lemma_listing_shrink(s: Seq<usize>, lo: int, hi: int)
    requires
        lists_primes_in(s, lo, hi),
        !is_prime(hi),
    ensures
        lists_primes_in(s, lo, hi - 1),
{
    assert forall|i: int| 0 <= i < s.len() implies lo <= #[trigger] s[i] <= hi - 1 && is_prime(
        s[i] as int,
    ) by {
        assert(is_prime(s[i] as int));
    }
}

/// Two exact listings of adjacent ranges concatenate to an exact listing
/// of their union.
pub proof fn lemma_listing_concat(a: Seq<usize>, b: Seq<usize>, lo: int, mid: int, hi: int)
    requires
        lists_primes_in(a, lo, mid),
        lists_primes_in(b, mid + 1, hi),
        lo <= mid + 1,
        mid <= hi,
    ensures
        lists_primes_in(a + b, lo, hi),
{
    let c = a + b;
    assert forall|i: int, j: int| 0 <= i < j < c.len() implies c[i] < c[j] by {
        if j < a.len() {
        } else if i >= a.len() {
            assert(c[i] == b[i - a.len()] && c[j] == b[j - a.len()]);
        } else {
            assert(a[i] <= mid);
            assert(b[j - a.len()] >= mid + 1);
        }
    }
    assert forall|i: int| 0 <= i < c.len() implies lo <= #[trigger] c[i] <= hi && is_prime(
        c[i] as int,
    ) by {
        if i < a.len() {
            assert(c[i] == a[i]);
        } else {
            assert(c[i] == b[i - a.len()]);
        }
    }
    assert forall|n: int| lo <= n <= hi && is_prime(n) implies #[trigger] c.contains(n as usize) by {
        if n <= mid {
            assert(a.contains(n as usize));
            let k = choose|k: int| 0 <= k < a.len() && a[k] == n as usize;
            assert(c[k] == n as usize);
        } else {
            assert(b.contains(n as usize));
            let k = choose|k: int| 0 <= k < b.len() && b[k] == n as usize;
            assert(c[k + a.len()] == n as usize);
        }
    }
}

/// 2 is prime.
pub proof fn lemma_two_is_prime()
    ensures
        is_prime(2),
{
    assert forall|d: int| 2 <= d < 2 implies #[trigger] (2int % d) != 0 by {}
}

/// Appending the next prime to an exact listing keeps it exact.
pub proof fn lemma_listing_push(s: Seq<usize>, lo: int, hi: int, x: usize)
    requires
        lists_primes_in(s, lo, hi),
        hi < x,
        lo <= x,
        is_prime(x as int),
        forall|n: int| hi < n < x ==> !#[trigger] is_prime(n),
    ensures
        lists_primes_in(s.push(x), lo, x as int),
{
    let t = s.push(x);
    assert(t[t.len() - 1] == x);
    assert forall|n: int| lo <= n <= x && is_prime(n) implies #[trigger] t.contains(n as usize) by {
        if n < x {
            assert(s.contains(n as usize));
            let k = choose|k: int| 0 <= k < s.len() && s[k] == n as usize;
            assert(t[k] == n as usize);
        }
    }
}

/// Two multiples of `i` differ by at least `i`.
pub proof fn lemma_multiple_gap(x: int, j: int, i: int)
    requires
        i > 0,
        x % i == 0,
        j % i == 0,
        j < x,
    ensures
        j + i <= x,
{
    vstd::arithmetic::div_mod::lemma_fundamental_div_mod(x, i);
    vstd::arithmetic::div_mod::lemma_fundamental_div_mod(j, i);
    let a = x / i;
    let b = j / i;
    assert(j + i <= x) by (nonlinear_arith)
        requires
            x == i * a,
            j == i * b,
            j < x,
            i > 0,
    ;
}

/// Adding `i` to a multiple of `i` gives a multiple of `i`.
pub proof fn lemma_multiple_step(j: int, i: int, k: int)
    requires
        i > 0,
        j % i == 0,
    ensures
        (j + k * i) % i == 0,
{
    vstd::arithmetic::div_mod::lemma_fundamental_div_mod(j, i);
    let a = j / i;
    assert(j + k * i == (a + k) * i) by (nonlinear_arith)
        requires
            j == i * a,
    ;
    vstd::arithmetic::div_mod::lemma_mod_multiples_basic(a + k, i);
}

/// The integer square root of `n`.
pub fn isqrt(n: usize) -> (r: usize)
    ensures
        is_isqrt(r as int, n as int),
{
    let nn: u128 = n as u128;
    let mut lo: u128 = 0;
    let mut hi: u128 = 0x1_0000_0000;
    assert(nn < hi * hi) by (nonlinear_arith)
        requires
            nn <= 0xffff_ffff_ffff_ffff,
            hi == 0x1_0000_0000u128,
    ;
    while hi - lo > 1
        invariant
            lo < hi <= 0x1_0000_0000,
            lo * lo <= nn,
            nn < hi * hi,
            nn == n,
        decreases hi - lo,
    {
        let mid = lo + (hi - lo) / 2;
        assert(mid * mid <= 0x1_0000_0000u128 * 0x1_0000_0000u128) by (nonlinear_arith)
            requires
                mid <= 0x1_0000_0000u128,
        ;
        if mid * mid <= nn {
            lo = mid;
        } else {
            hi = mid;
        }
    }
    assert(lo * lo <= nn && lo <= nn) by (nonlinear_arith)
        requires
            lo * lo <= nn,
    ;
    lo as usize
}

} // verus!
