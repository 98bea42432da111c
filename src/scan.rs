//! Where the primes of a list occur inside a string of digits.
use vstd::prelude::*;
use crate::bases::{base_digits, chars_of, to_base};

verus! {

/// Primes below this are too short to be worth looking for.
pub const MIN_SCANNED: usize = 1000;

/// `pat` occurs in `d` starting at `pos`.
pub open spec fn occurs_at(d: Seq<char>, pat: Seq<char>, pos: int) -> bool {
    0 <= pos && pos + pat.len() <= d.len() && d.subrange(pos, pos + pat.len()) == pat
}

/// Whether `pat` occurs in `d` at `pos`.
fn matches_at(d: &Vec<char>, pat: &Vec<char>, pos: usize) -> (r: bool)
    ensures
        r == occurs_at(d@, pat@, pos as int),
{
    if pos > d.len() || pat.len() > d.len() - pos {
        return false;
    }
    let mut k: usize = 0;
    while k < pat.len()
        invariant
            pos + pat.len() <= d.len(),
            k <= pat.len(),
            forall|j: int| 0 <= j < k ==> #[trigger] d@[pos + j] == pat@[j],
        decreases pat.len() - k,
    {
        if d[pos + k] != pat[k] {
            assert(d@.subrange(pos as int, pos + pat.len())[k as int] != pat@[k as int]);
            return false;
        }
        k = k + 1;
    }
    assert forall|j: int| 0 <= j < pat@.len() implies #[trigger] d@.subrange(
        pos as int,
        pos + pat.len(),
    )[j] == pat@[j] by {
        assert(d@[pos + j] == pat@[j]);
    }
    assert(d@.subrange(pos as int, pos + pat.len()) =~= pat@);
    true
}

/// Every occurrence, as `(prime, position)`, of the decimal form of each
/// prime of `primes` that is at least `MIN_SCANNED`, overlapping ones
/// included; ordered by position, and at one position by the order of
/// `primes`.
pub fn find_prime_occurrences(digits: &str, primes: &Vec<usize>) -> (r: Vec<(usize, usize)>)
    ensures
        forall|k: int|
            0 <= k < r@.len() ==> {
                &&& (#[trigger] r@[k]).0 >= MIN_SCANNED
                &&& primes@.contains(r@[k].0)
                &&& occurs_at(digits@, base_digits(r@[k].0 as nat, 10), r@[k].1 as int)
            },
        forall|a: int, b: int| 0 <= a < b < r@.len() ==> r@[a].1 <= r@[b].1,
        forall|j: int, pos: int|
            0 <= j < primes@.len() && primes@[j] >= MIN_SCANNED && occurs_at(
                digits@,
                base_digits(primes@[j] as nat, 10),
                pos,
            ) ==> #[trigger] r@.contains((primes@[j], pos as usize)),
{
    let d = chars_of(digits);
    let mut pats: Vec<Vec<char>> = Vec::new();
    let mut j: usize = 0;
    while j < primes.len()
        invariant
            j <= primes.len(),
            pats@.len() == j,
            forall|t: int| 0 <= t < j ==> #[trigger] pats@[t]@ == base_digits(primes@[t] as nat, 10),
        decreases primes.len() - j,
    {
        let s = to_base(primes[j], 10);
        pats.push(chars_of(s.as_str()));
        j = j + 1;
    }
    let mut out: Vec<(usize, usize)> = Vec::new();
    let mut pos: usize = 0;
    while pos < d.len()
        invariant
            d@ == digits@,
            pats@.len() == primes@.len(),
            forall|t: int| 0 <= t < pats@.len() ==> #[trigger] pats@[t]@ == base_digits(primes@[t] as nat, 10),
            pos <= d.len(),
            forall|k: int|
                0 <= k < out@.len() ==> {
                    &&& (#[trigger] out@[k]).0 >= MIN_SCANNED
                    &&& primes@.contains(out@[k].0)
                    &&& occurs_at(digits@, base_digits(out@[k].0 as nat, 10), out@[k].1 as int)
                    &&& out@[k].1 < pos
                },
            forall|a: int, b: int| 0 <= a < b < out@.len() ==> out@[a].1 <= out@[b].1,
            forall|t: int, q: int|
                0 <= t < primes@.len() && 0 <= q < pos && primes@[t] >= MIN_SCANNED && occurs_at(
                    digits@,
                    base_digits(primes@[t] as nat, 10),
                    q,
                ) ==> #[trigger] out@.contains((primes@[t], q as usize)),
        decreases d.len() - pos,
    {
        let mut t: usize = 0;
        let ghost start = out@.len();
        while t < primes.len()
            invariant
                d@ == digits@,
                pats@.len() == primes@.len(),
                forall|u: int| 0 <= u < pats@.len() ==> #[trigger] pats@[u]@ == base_digits(primes@[u] as nat, 10),
                pos < d.len(),
                t <= primes.len(),
                start <= out@.len(),
                forall|k: int|
                    0 <= k < out@.len() ==> {
                        &&& (#[trigger] out@[k]).0 >= MIN_SCANNED
                        &&& primes@.contains(out@[k].0)
                        &&& occurs_at(digits@, base_digits(out@[k].0 as nat, 10), out@[k].1 as int)
                        &&& out@[k].1 <= pos
                        &&& k >= start ==> out@[k].1 == pos
                    },
                forall|k: int| 0 <= k < start ==> (#[trigger] out@[k]).1 < pos,
                forall|a: int, b: int| 0 <= a < b < out@.len() ==> out@[a].1 <= out@[b].1,
                forall|u: int, q: int|
                    0 <= u < primes@.len() && 0 <= q < pos && primes@[u] >= MIN_SCANNED && occurs_at(
                        digits@,
                        base_digits(primes@[u] as nat, 10),
                        q,
                    ) ==> #[trigger] out@.contains((primes@[u], q as usize)),
                forall|u: int|
                    0 <= u < t && primes@[u] >= MIN_SCANNED && occurs_at(
                        digits@,
                        base_digits(primes@[u] as nat, 10),
                        pos as int,
                    ) ==> #[trigger] out@.contains((primes@[u], pos)),
            decreases primes.len() - t,
        {
            let p = primes[t];
            let ghost before = out@;
            if p >= MIN_SCANNED && matches_at(&d, &pats[t], pos) {
                out.push((p, pos));
                proof {
                    assert(primes@[t as int] == p);
                    assert(primes@.contains(p));
                    assert(out@[out@.len() - 1] == (p, pos));
                    assert(out@.contains((p, pos)));
                    assert forall|u: int, q: int|
                        0 <= u < primes@.len() && 0 <= q <= pos && before.contains(
                            (primes@[u], q as usize),
                        ) implies #[trigger] out@.contains((primes@[u], q as usize)) by {
                        let k = choose|k: int|
                            0 <= k < before.len() && before[k] == (primes@[u], q as usize);
                        assert(out@[k] == (primes@[u], q as usize));
                    }
                    assert forall|u: int|
                        0 <= u < t && before.contains((primes@[u], pos)) implies #[trigger] out@.contains(
                        (primes@[u], pos),
                    ) by {
                        let k = choose|k: int| 0 <= k < before.len() && before[k] == (primes@[u], pos);
                        assert(out@[k] == (primes@[u], pos));
                    }
                }
            }
            t = t + 1;
        }
        pos = pos + 1;
    }
    out
}

/// The window shown around an occurrence at `pos` of a value `len` long in
/// a string `total` long: up to three characters either side.
pub fn occurrence_context(pos: usize, len: usize, total: usize) -> (r: (usize, usize))
    requires
        pos + len + 3 <= usize::MAX,
    ensures
        r.0 == if pos >= 3 { pos - 3 } else { 0 },
        r.1 == if pos + len + 3 <= total { pos + len + 3 } else { total as int },
{
    let start = if pos >= 3 {
        pos - 3
    } else {
        0
    };
    let end = if pos + len + 3 <= total {
        pos + len + 3
    } else {
        total
    };
    (start, end)
}

} // verus!
