//! Reading text records back: one decimal number per line, surrounding
//! whitespace ignored, lines that are not a number skipped.
use vstd::prelude::*;
use crate::encode::{decimal_digits, text_records};

verus! {

/// `c` is white space (the Unicode `White_Space` characters).
pub open spec fn is_white(c: char) -> bool {
    ||| ('\u{9}' <= c && c <= '\u{d}')
    ||| c == ' '
    ||| c == '\u{85}'
    ||| c == '\u{a0}'
    ||| c == '\u{1680}'
    ||| ('\u{2000}' <= c && c <= '\u{200a}')
    ||| c == '\u{2028}'
    ||| c == '\u{2029}'
    ||| c == '\u{202f}'
    ||| c == '\u{205f}'
    ||| c == '\u{3000}'
}

fn white(c: char) -> (r: bool)
    ensures
        r == is_white(c),
{
    ('\u{9}' <= c && c <= '\u{d}') || c == ' ' || c == '\u{85}' || c == '\u{a0}' || c == '\u{1680}'
        || ('\u{2000}' <= c && c <= '\u{200a}') || c == '\u{2028}' || c == '\u{2029}' || c
        == '\u{202f}' || c == '\u{205f}' || c == '\u{3000}'
}

/// Index of the first character of `s` at or after `i` that is not white.
pub open spec fn trim_start(s: Seq<char>, i: int) -> int
    decreases s.len() - i,
{
    if i >= s.len() || !is_white(s[i]) {
        i
    } else {
        trim_start(s, i + 1)
    }
}

/// One past the last character of `s` before `j` that is not white.
pub open spec fn trim_end(s: Seq<char>, j: int) -> int
    decreases j,
{
    if j <= 0 || !is_white(s[j - 1]) {
        j
    } else {
        trim_end(s, j - 1)
    }
}

/// `s` without white space at either end.
pub open spec fn trimmed(s: Seq<char>) -> Seq<char> {
    let a = trim_start(s, 0);
    let b = trim_end(s, s.len() as int);
    if a < b {
        s.subrange(a, b)
    } else {
        Seq::empty()
    }
}

/// Every character of `d` is a decimal digit.
pub open spec fn all_digits(d: Seq<char>) -> bool {
    forall|i: int| 0 <= i < d.len() ==> '0' <= #[trigger] d[i] && d[i] <= '9'
}

/// The number the decimal digits `d` spell.
pub open spec fn digits_value(d: Seq<char>) -> nat
    decreases d.len(),
{
    if d.len() == 0 {
        0
    } else {
        digits_value(d.drop_last()) * 10 + ((d.last() as int - 48) as nat)
    }
}

/// The value of a line: an optional `+`, then at least one digit, and a
/// number that fits a `usize`.
pub open spec fn line_value(line: Seq<char>) -> Option<usize> {
    let d = if line.len() > 0 && line[0] == '+' {
        line.subrange(1, line.len() as int)
    } else {
        line
    };
    if d.len() > 0 && all_digits(d) && digits_value(d) <= usize::MAX {
        Some(digits_value(d) as usize)
    } else {
        None
    }
}

/// `s` with the value of `line` appended, if it has one.
pub open spec fn with_line(s: Seq<usize>, line: Seq<char>) -> Seq<usize> {
    match line_value(trimmed(line)) {
        Some(v) => s.push(v),
        None => s,
    }
}

/// Reading `t` from the left: the values of the completed lines, and the
/// characters of the line still open.
pub open spec fn scan(t: Seq<char>) -> (Seq<usize>, Seq<char>)
    decreases t.len(),
{
    if t.len() == 0 {
        (Seq::empty(), Seq::empty())
    } else {
        let (r, line) = scan(t.drop_last());
        if t.last() == '\n' {
            (with_line(r, line), Seq::empty())
        } else {
            (r, line.push(t.last()))
        }
    }
}

/// The values of the lines of `t`, in order.
pub open spec fn text_values(t: Seq<char>) -> Seq<usize> {
    let (r, line) = scan(t);
    with_line(r, line)
}

proof fn lemma_digits_grow(d: Seq<char>, k: int)
    requires
        0 <= k <= d.len(),
        all_digits(d),
    ensures
        digits_value(d.subrange(0, k)) <= digits_value(d),
    decreases d.len() - k,
{
    if k < d.len() {
        lemma_digits_grow(d, k + 1);
        let p = d.subrange(0, k + 1);
        assert(p.drop_last() == d.subrange(0, k));
        assert('0' <= p.last() <= '9');
    } else {
        assert(d.subrange(0, k) == d);
    }
}

/// ASCII bytes read as characters.
pub open spec fn ascii_text(b: Seq<u8>) -> Seq<char> {
    b.map_values(|x: u8| x as char)
}

proof fn lemma_decimal_line(n: nat)
    ensures
        ascii_text(decimal_digits(n)).len() > 0,
        all_digits(ascii_text(decimal_digits(n))),
        digits_value(ascii_text(decimal_digits(n))) == n,
        forall|i: int|
            0 <= i < ascii_text(decimal_digits(n)).len() ==> #[trigger] ascii_text(
                decimal_digits(n),
            )[i] != '\n',
    decreases n,
{
    let d = ascii_text(decimal_digits(n));
    if n >= 10 {
        lemma_decimal_line(n / 10);
        let p = ascii_text(decimal_digits(n / 10));
        assert(decimal_digits(n) == decimal_digits(n / 10).push((48 + n % 10) as u8));
        assert(d == p.push(((48 + n % 10) as u8) as char));
        assert(d.drop_last() == p);
        vstd::arithmetic::div_mod::lemma_fundamental_div_mod(n as int, 10);
        assert(d.last() as int - 48 == n % 10);
        assert(digits_value(d) == digits_value(p) * 10 + n % 10);
        assert((n / 10) * 10 + n % 10 == n) by (nonlinear_arith)
            requires
                n == 10 * (n / 10) + n % 10,
        ;
        assert forall|i: int| 0 <= i < d.len() implies '0' <= #[trigger] d[i] && d[i] <= '9' by {
            if i < p.len() {
                assert(d[i] == p[i]);
            }
        }
    } else {
        assert(d.drop_last() =~= Seq::<char>::empty());
        assert(d.last() as int - 48 == n);
        assert(digits_value(d.drop_last()) == 0);
        assert(digits_value(d) == n);
    }
}

proof fn lemma_digits_trimmed(d: Seq<char>)
    requires
        d.len() > 0,
        all_digits(d),
    ensures
        trimmed(d) == d,
{
    assert('0' <= d[0] <= '9');
    assert('0' <= d[d.len() - 1] <= '9');
    assert(trim_start(d, 0) == 0);
    assert(trim_end(d, d.len() as int) == d.len());
    assert(d.subrange(0, d.len() as int) == d);
}

proof fn lemma_scan_line(t: Seq<char>, r: Seq<usize>, line: Seq<char>, k: int)
    requires
        scan(t) == (r, Seq::<char>::empty()),
        0 <= k <= line.len(),
        forall|i: int| 0 <= i < line.len() ==> #[trigger] line[i] != '\n',
    ensures
        scan(t + line.subrange(0, k)) == (r, line.subrange(0, k)),
    decreases k,
{
    if k == 0 {
        assert(t + line.subrange(0, 0) == t);
        assert(line.subrange(0, 0) =~= Seq::<char>::empty());
    } else {
        lemma_scan_line(t, r, line, k - 1);
        let u = t + line.subrange(0, k);
        assert(u.drop_last() == t + line.subrange(0, k - 1));
        assert(u.last() == line[k - 1]);
        assert(line.subrange(0, k - 1).push(line[k - 1]) == line.subrange(0, k));
    }
}

/// Reading text records back gives the values that were written.
pub proof fn lemma_text_roundtrip(s: Seq<usize>)
    ensures
        scan(ascii_text(text_records(s))) == (s, Seq::<char>::empty()),
        text_values(ascii_text(text_records(s))) == s,
    decreases s.len(),
{
    let t = ascii_text(text_records(s));
    if s.len() == 0 {
        assert(t =~= Seq::<char>::empty());
    } else {
        let front = s.drop_last();
        lemma_text_roundtrip(front);
        let n = s.last();
        let t0 = ascii_text(text_records(front));
        let line = ascii_text(decimal_digits(n as nat));
        lemma_decimal_line(n as nat);
        assert(text_records(s) == text_records(front) + decimal_digits(n as nat).push(10u8));
        assert(t =~= t0 + line + seq!['\n']);
        lemma_scan_line(t0, front, line, line.len() as int);
        assert(line.subrange(0, line.len() as int) == line);
        let u = t0 + line + seq!['\n'];
        assert(u.drop_last() =~= t0 + line);
        assert(u.last() == '\n');
        lemma_digits_trimmed(line);
        assert(line[0] != '+');
        assert(line_value(line) == Some(n));
        assert(with_line(front, line) == front.push(n));
        assert(front.push(n) == s);
    }
    assert(line_value(trimmed(Seq::<char>::empty())) is None) by {
        assert(trimmed(Seq::<char>::empty()) =~= Seq::<char>::empty());
    }
}

/// The value of `line` (already trimmed), as `line_value` says.
fn parse_line(line: &Vec<char>) -> (r: Option<usize>)
    ensures
        r == line_value(line@),
{
    let n = line.len();
    let start: usize = if n > 0 && line[0] == '+' {
        1
    } else {
        0
    };
    let ghost d = line@.subrange(start as int, n as int);
    assert(line@.subrange(0, n as int) == line@);
    assert(d == if line@.len() > 0 && line@[0] == '+' {
        line@.subrange(1, line@.len() as int)
    } else {
        line@
    });
    if start >= n {
        return None;
    }
    let mut v: usize = 0;
    let mut i: usize = start;
    while i < n
        invariant
            n == line@.len(),
            start <= i <= n,
            d == line@.subrange(start as int, n as int),
            d == if line@.len() > 0 && line@[0] == '+' {
                line@.subrange(1, line@.len() as int)
            } else {
                line@
            },
            all_digits(d.subrange(0, i - start)),
            v == digits_value(d.subrange(0, i - start)),
        decreases n - i,
    {
        let c = line[i];
        if c < '0' || c > '9' {
            assert(!all_digits(d)) by {
                assert(d[i - start] == c);
            }
            return None;
        }
        let digit = (c as u32 - 48) as usize;
        let ghost p = d.subrange(0, i - start + 1);
        assert(p.drop_last() == d.subrange(0, i - start));
        assert(p.last() == c);
        if v > (usize::MAX - digit) / 10 {
            proof {
                assert(digits_value(p) > usize::MAX) by (nonlinear_arith)
                    requires
                        v > (usize::MAX - digit) / 10,
                        digits_value(p) == v * 10 + digit,
                        digit <= 9,
                ;
                if all_digits(d) {
                    lemma_digits_grow(d, i - start + 1);
                }
            }
            return None;
        }
        assert(v * 10 + digit <= usize::MAX) by (nonlinear_arith)
            requires
                v <= (usize::MAX - digit) / 10,
                digit <= 9,
        ;
        v = v * 10 + digit;
        i = i + 1;
        assert(all_digits(d.subrange(0, i - start))) by {
            assert forall|j: int| 0 <= j < i - start implies '0' <= #[trigger] d.subrange(0, i - start)[j]
                && d.subrange(0, i - start)[j] <= '9' by {
                if j < i - 1 - start {
                    assert(d.subrange(0, i - start)[j] == d.subrange(0, i - 1 - start)[j]);
                }
            }
        }
    }
    assert(d.subrange(0, n - start) == d);
    Some(v)
}

/// `line` without white space at either end.
fn trim(line: &Vec<char>) -> (r: Vec<char>)
    ensures
        r@ == trimmed(line@),
{
    let n = line.len();
    let mut a: usize = 0;
    while a < n && white(line[a])
        invariant
            a <= n,
            n == line@.len(),
            trim_start(line@, 0) == trim_start(line@, a as int),
        decreases n - a,
    {
        a = a + 1;
    }
    let mut b: usize = n;
    while b > 0 && white(line[b - 1])
        invariant
            b <= n,
            n == line@.len(),
            trim_end(line@, n as int) == trim_end(line@, b as int),
        decreases b,
    {
        b = b - 1;
    }
    let mut r: Vec<char> = Vec::new();
    if a < b {
        let mut i = a;
        while i < b
            invariant
                a <= i <= b,
                b <= n,
                n == line@.len(),
                r@ == line@.subrange(a as int, i as int),
            decreases b - i,
        {
            r.push(line[i]);
            i = i + 1;
            assert(r@ == line@.subrange(a as int, i as int));
        }
    }
    assert(r@ =~= trimmed(line@));
    r
}

/// The numbers of a text of one number per line, in order; a line that is
/// not a number (after trimming) is skipped.
pub fn parse_text_records(text: &str) -> (r: Vec<usize>)
    ensures
        r@ == text_values(text@),
{
    let n = text.unicode_len();
    let mut out: Vec<usize> = Vec::new();
    let mut line: Vec<char> = Vec::new();
    let mut i: usize = 0;
    while i < n
        invariant
            n == text@.len(),
            i <= n,
            scan(text@.subrange(0, i as int)) == (out@, line@),
        decreases n - i,
    {
        let c = text.get_char(i);
        let ghost t = text@.subrange(0, i + 1);
        assert(t.drop_last() == text@.subrange(0, i as int));
        assert(t.last() == c);
        if c == '\n' {
            let trimmed_line = trim(&line);
            if let Some(v) = parse_line(&trimmed_line) {
                out.push(v);
            }
            line = Vec::new();
        } else {
            line.push(c);
        }
        i = i + 1;
        assert(scan(text@.subrange(0, i as int)) == (out@, line@));
    }
    assert(text@.subrange(0, n as int) == text@);
    let trimmed_line = trim(&line);
    if let Some(v) = parse_line(&trimmed_line) {
        out.push(v);
    }
    out
}

} // verus!
