//! Numbers written in the bases 2 to 62, palindromes among them, and the
//! rows of the base table.
use vstd::prelude::*;

verus! {

/// The character for digit `d`: `0`-`9`, then `A`-`Z` for 10 to 35, then
/// `a`-`z` for 36 to 61.
pub open spec fn digit_char(d: int) -> char {
    if d < 10 {
        (48 + d) as char
    } else if d < 36 {
        (55 + d) as char
    } else {
        (61 + d) as char
    }
}

/// The digits of `n` in base `b`, most significant first; `0` for zero.
pub open spec fn base_digits(n: nat, b: nat) -> Seq<char>
    decreases n,
{
    if n < b || b < 2 {
        seq![digit_char(n as int)]
    } else {
        proof {
            vstd::arithmetic::div_mod::lemma_div_decreases(n as int, b as int);
        }
        base_digits(n / b, b).push(digit_char((n % b) as int))
    }
}

/// `s` reads the same both ways and has at least two characters.
pub open spec fn palindrome(s: Seq<char>) -> bool {
    s.len() >= 2 && forall|i: int| 0 <= i < s.len() ==> #[trigger] s[i] == s[s.len() - 1 - i]
}

/// Relies on `String`'s `FromIterator<char>`: the string of exactly these
/// characters, in order.
#[verifier::external_body]
pub(crate) fn string_of(chars: &Vec<char>) -> (r: String)
    ensures
        r@ == chars@,
{
    chars.iter().collect()
}

/// The characters of `s`, in order.
pub fn chars_of(s: &str) -> (r: Vec<char>)
    ensures
        r@ == s@,
{
    let n = s.unicode_len();
    let mut r: Vec<char> = Vec::new();
    let mut i: usize = 0;
    while i < n
        invariant
            n == s@.len(),
            i <= n,
            r@ == s@.subrange(0, i as int),
        decreases n - i,
    {
        r.push(s.get_char(i));
        i = i + 1;
        assert(r@ == s@.subrange(0, i as int));
    }
    assert(s@.subrange(0, n as int) == s@);
    r
}

fn digit(d: usize) -> (c: char)
    requires
        d < 62,
    ensures
        c == digit_char(d as int),
{
    if d < 10 {
        ((d as u8) + 48) as char
    } else if d < 36 {
        ((d as u8) + 55) as char
    } else {
        ((d as u8) + 61) as char
    }
}

/// `num` written in base `base`.
pub fn to_base(num: usize, base: usize) -> (r: String)
    requires
        2 <= base <= 62,
    ensures
        r@ == base_digits(num as nat, base as nat),
{
    if num == 0 {
        let zero: Vec<char> = vec!['0'];
        assert(zero@ =~= base_digits(0, base as nat));
        return string_of(&zero);
    }
    let mut n = num;
    let mut out: Vec<char> = Vec::new();
    while n > 0
        invariant
            2 <= base <= 62,
            n > 0 ==> base_digits(num as nat, base as nat) == base_digits(n as nat, base as nat)
                + out@,
            n == 0 ==> base_digits(num as nat, base as nat) == out@,
        decreases n,
    {
        let d = n % base;
        let c = digit(d);
        let ghost before = out@;
        out.insert(0, c);
        proof {
            assert(out@ == seq![c] + before);
            if n < base {
                vstd::arithmetic::div_mod::lemma_small_mod(n as nat, base as nat);
                vstd::arithmetic::div_mod::lemma_basic_div(n as int, base as int);
                assert(base_digits(n as nat, base as nat) == seq![c]);
                assert(base_digits(num as nat, base as nat) == out@);
            } else {
                let q = (n / base) as nat;
                vstd::arithmetic::div_mod::lemma_fundamental_div_mod(n as int, base as int);
                vstd::arithmetic::div_mod::lemma_mod_pos_bound(n as int, base as int);
                assert(n / base >= 1) by (nonlinear_arith)
                    requires
                        n >= base,
                        base >= 2,
                        n == base * (n / base) + n % base,
                        n % base < base,
                ;
                assert(base_digits(n as nat, base as nat) == base_digits(q, base as nat).push(c));
                assert(base_digits(q, base as nat).push(c) + before == base_digits(q, base as nat)
                    + out@);
            }
        }
        n = n / base;
    }
    string_of(&out)
}

/// `s` is a palindrome of at least two characters; case matters.
pub fn is_palindrome(s: &str) -> (r: bool)
    ensures
        r == palindrome(s@),
{
    let len = s.unicode_len();
    if len <= 1 {
        return false;
    }
    let mut i: usize = 0;
    while i < len / 2
        invariant
            len == s@.len(),
            len >= 2,
            i <= len / 2,
            forall|j: int| 0 <= j < i ==> #[trigger] s@[j] == s@[len - 1 - j],
        decreases len / 2 - i,
    {
        if s.get_char(i) != s.get_char(len - 1 - i) {
            return false;
        }
        i = i + 1;
    }
    assert forall|j: int| 0 <= j < len implies #[trigger] s@[j] == s@[len - 1 - j] by {
        if j >= len / 2 {
            let k = len - 1 - j;
            assert(s@[k] == s@[len - 1 - k]);
        }
    }
    true
}

/// Terminal escape that turns on bright bold yellow.
pub const PALINDROME_ON: &'static str = "\x1b[1;93m";

/// Terminal escape that turns on dim grey.
pub const DIM_ON: &'static str = "\x1b[90m";

/// Terminal escape that resets the colour.
pub const COLOR_OFF: &'static str = "\x1b[0m";

fn wrap(prefix: &str, s: &str, suffix: &str) -> (r: String)
    ensures
        r@ == prefix@ + s@ + suffix@,
{
    let mut all = chars_of(prefix);
    let mut mid = chars_of(s);
    let mut tail = chars_of(suffix);
    all.append(&mut mid);
    all.append(&mut tail);
    string_of(&all)
}

/// `s` highlighted when it is a palindrome, else `s` itself.
pub fn colorize_if_palindrome(s: &str) -> (r: String)
    ensures
        palindrome(s@) ==> r@ == PALINDROME_ON@ + s@ + COLOR_OFF@,
        !palindrome(s@) ==> r@ == s@,
{
    if is_palindrome(s) {
        wrap(PALINDROME_ON, s, COLOR_OFF)
    } else {
        let c = chars_of(s);
        string_of(&c)
    }
}

/// `s` dimmed: the base-10 column repeats the number itself.
pub fn colorize_duplicate_base10(s: &str) -> (r: String)
    ensures
        r@ == DIM_ON@ + s@ + COLOR_OFF@,
{
    wrap(DIM_ON, s, COLOR_OFF)
}

/// A table cell: with `pal_only`, a palindrome highlighted or `-`;
/// otherwise the value, highlighted when a palindrome.
pub fn format_value(s: &str, pal_only: bool) -> (r: String)
    ensures
        palindrome(s@) ==> r@ == PALINDROME_ON@ + s@ + COLOR_OFF@,
        !palindrome(s@) && pal_only ==> r@ == seq!['-'],
        !palindrome(s@) && !pal_only ==> r@ == s@,
{
    if pal_only {
        if is_palindrome(s) {
            colorize_if_palindrome(s)
        } else {
            let dash: Vec<char> = vec!['-'];
            string_of(&dash)
        }
    } else {
        colorize_if_palindrome(s)
    }
}

/// Number of `true` entries of `s`.
pub open spec fn count_true(s: Seq<bool>) -> nat
    decreases s.len(),
{
    if s.len() == 0 {
        0
    } else {
        count_true(s.drop_last()) + if s.last() {
            1nat
        } else {
            0nat
        }
    }
}

/// One row of the base table: a prime in every base from 2 to 62.
pub struct BaseRow {
    /// The prime in decimal, then one cell per base 2 to 62, then the
    /// number of bases in which it is a palindrome.
    pub cells: Vec<String>,
    /// Entry `i`: the prime is a palindrome in base `i + 2`.
    pub hits: Vec<bool>,
    /// How many entries of `hits` are set.
    pub palindrome_count: usize,
}

/// `pal` is one of the prime's palindromic representations.
pub open spec fn matches_palindrome(prime: nat, pal: Seq<char>) -> bool {
    exists|b: int| 2 <= b <= 62 && #[trigger] palindrome(base_digits(prime, b as nat))
        && base_digits(prime, b as nat) == pal
}

/// The base-table row of `prime`; `None` when `pal` names a value that is
/// not among the prime's palindromic representations. The base-10 cell is
/// dimmed, every other cell is formatted by `format_value`.
pub fn base_row(prime: usize, pal_only: bool, pal: &Option<String>) -> (r: Option<BaseRow>)
    ensures
        match pal {
            Some(v) => r is None <==> !matches_palindrome(prime as nat, v@),
            None => r is Some,
        },
        r matches Some(row) ==> {
            &&& row.hits@.len() == 61
            &&& forall|i: int|
                0 <= i < 61 ==> #[trigger] row.hits@[i] == palindrome(
                    base_digits(prime as nat, (i + 2) as nat),
                )
            &&& row.palindrome_count == count_true(row.hits@)
            &&& row.cells@.len() == 63
            &&& row.cells@[0]@ == base_digits(prime as nat, 10)
            &&& row.cells@[9int]@ == DIM_ON@ + base_digits(prime as nat, 10) + COLOR_OFF@
            &&& forall|i: int|
                0 <= i < 61 && i != 8 ==> {
                    let d = base_digits(prime as nat, (i + 2) as nat);
                    &&& palindrome(d) ==> #[trigger] row.cells@[i + 1]@ == PALINDROME_ON@ + d
                        + COLOR_OFF@
                    &&& !palindrome(d) && pal_only ==> row.cells@[i + 1]@ == seq!['-']
                    &&& !palindrome(d) && !pal_only ==> row.cells@[i + 1]@ == d
                }
            &&& row.cells@[62]@ == base_digits(row.palindrome_count as nat, 10)
        },
{
    let mut reprs: Vec<String> = Vec::new();
    let mut hits: Vec<bool> = Vec::new();
    let mut count: usize = 0;
    let mut found = false;
    let mut b: usize = 2;
    while b <= 62
        invariant
            2 <= b <= 63,
            reprs@.len() == b - 2,
            hits@.len() == b - 2,
            count == count_true(hits@),
            count <= b - 2,
            forall|i: int|
                0 <= i < b - 2 ==> #[trigger] reprs@[i]@ == base_digits(prime as nat, (i + 2) as nat),
            forall|i: int|
                0 <= i < b - 2 ==> #[trigger] hits@[i] == palindrome(
                    base_digits(prime as nat, (i + 2) as nat),
                ),
            match pal {
                Some(v) => found <==> exists|c: int|
                    2 <= c < b && #[trigger] palindrome(base_digits(prime as nat, c as nat))
                        && base_digits(prime as nat, c as nat) == v@,
                None => !found,
            },
        decreases 63 - b,
    {
        let repr = to_base(prime, b);
        let hit = is_palindrome(repr.as_str());
        let ghost found0 = found;
        let mut here = false;
        if let Some(v) = pal {
            if hit && repr == *v {
                here = true;
                found = true;
            }
        }
        let ghost h0 = hits@;
        hits.push(hit);
        assert(hits@.drop_last() == h0);
        if hit {
            count = count + 1;
        }
        proof {
            if let Some(v) = pal {
                assert(here <==> (palindrome(base_digits(prime as nat, b as nat))
                    && base_digits(prime as nat, b as nat) == v@));
                if found {
                    if here {
                        let c: int = b as int;
                        assert(c as nat == b as nat);
                        assert(2 <= c < b + 1 && palindrome(base_digits(prime as nat, c as nat))
                            && base_digits(prime as nat, c as nat) == v@);
                    } else {
                        let c = choose|c: int|
                            2 <= c < b && #[trigger] palindrome(base_digits(prime as nat, c as nat))
                                && base_digits(prime as nat, c as nat) == v@;
                        assert(2 <= c < b + 1 && palindrome(base_digits(prime as nat, c as nat))
                            && base_digits(prime as nat, c as nat) == v@);
                    }
                }
                if exists|c: int|
                    2 <= c < b + 1 && #[trigger] palindrome(base_digits(prime as nat, c as nat))
                        && base_digits(prime as nat, c as nat) == v@ {
                    let c = choose|c: int|
                        2 <= c < b + 1 && #[trigger] palindrome(base_digits(prime as nat, c as nat))
                            && base_digits(prime as nat, c as nat) == v@;
                    if c < b {
                        assert(found0);
                    } else {
                        assert(c as nat == b as nat);
                        assert(here);
                    }
                }
            }
        }
        reprs.push(repr);
        b = b + 1;
    }
    if pal.is_some() && !found {
        return None;
    }
    let mut cells: Vec<String> = Vec::new();
    cells.push(to_base(prime, 10));
    let mut i: usize = 0;
    while i < 61
        invariant
            i <= 61,
            reprs@.len() == 61,
            cells@.len() == i + 1,
            cells@[0]@ == base_digits(prime as nat, 10),
            forall|k: int|
                0 <= k < 61 ==> #[trigger] reprs@[k]@ == base_digits(prime as nat, (k + 2) as nat),
            i > 8 ==> cells@[9int]@ == DIM_ON@ + base_digits(prime as nat, 10) + COLOR_OFF@,
            forall|k: int|
                0 <= k < i && k != 8 ==> {
                    let d = base_digits(prime as nat, (k + 2) as nat);
                    &&& palindrome(d) ==> #[trigger] cells@[k + 1]@ == PALINDROME_ON@ + d
                        + COLOR_OFF@
                    &&& !palindrome(d) && pal_only ==> cells@[k + 1]@ == seq!['-']
                    &&& !palindrome(d) && !pal_only ==> cells@[k + 1]@ == d
                },
        decreases 61 - i,
    {
        let cell = if i == 8 {
            colorize_duplicate_base10(reprs[i].as_str())
        } else {
            format_value(reprs[i].as_str(), pal_only)
        };
        cells.push(cell);
        i = i + 1;
    }
    cells.push(to_base(count, 10));
    Some(BaseRow { cells, hits, palindrome_count: count })
}

/// Adds a row's hits to the per-base palindrome counts; a count already at
/// the largest `usize` stays there.
pub fn tally_hits(counts: &mut Vec<usize>, hits: &Vec<bool>)
    requires
        old(counts)@.len() == hits@.len(),
    ensures
        final(counts)@.len() == old(counts)@.len(),
        forall|i: int|
            0 <= i < hits@.len() ==> #[trigger] final(counts)@[i] == if hits@[i] && old(
                counts,
            )@[i] < usize::MAX {
                old(counts)@[i] + 1
            } else {
                old(counts)@[i] as int
            },
{
    let mut i: usize = 0;
    while i < hits.len()
        invariant
            i <= hits.len(),
            counts@.len() == hits@.len(),
            forall|k: int|
                i <= k < hits@.len() ==> #[trigger] counts@[k] == old(counts)@[k],
            forall|k: int|
                0 <= k < i ==> #[trigger] counts@[k] == if hits@[k] && old(counts)@[k] < usize::MAX {
                    old(counts)@[k] + 1
                } else {
                    old(counts)@[k] as int
                },
        decreases hits.len() - i,
    {
        if hits[i] && counts[i] < usize::MAX {
            let c = counts[i];
            counts.set(i, c + 1);
        }
        i = i + 1;
    }
}

} // verus!

