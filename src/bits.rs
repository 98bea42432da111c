//! Bit arrays packed 64 to a `u64` word: bit `i` lives in word `i / 64`
//! at position `i % 64`.
use vstd::prelude::*;
use vstd::std_specs::bits::{axiom_u64_trailing_zeros, u64_trailing_zeros};
use crate::prime::strictly_increasing;

verus! {

/// Bit `b` of word `w`.
pub open spec fn word_bit(w: u64, b: int) -> bool {
    (w >> (b as u64)) & 1u64 == 1u64
}

/// Bit `i` of a packed array.
pub open spec fn bit_at(words: Seq<u64>, i: int) -> bool {
    word_bit(words[i / 64], i % 64)
}

/// `v` is `base + 2 * idx` for a set bit `idx` of `words` with
/// `idx < count` and `idx < upto`.
pub open spec fn marked_value(words: Seq<u64>, count: int, base: int, upto: int, v: int) -> bool {
    &&& v >= base
    &&& (v - base) % 2 == 0
    &&& (v - base) / 2 < upto
    &&& (v - base) / 2 < count
    &&& bit_at(words, (v - base) / 2)
}

/// `s` lists, ascending, the numbers `base + 2 * idx` for the set bits `idx`
/// of `words` with `idx < count` and `idx < upto`.
pub open spec fn lists_marked(
    s: Seq<usize>,
    words: Seq<u64>,
    count: int,
    base: int,
    upto: int,
) -> bool {
    &&& strictly_increasing(s)
    &&& forall|k: int| 0 <= k < s.len() ==> marked_value(words, count, base, upto, #[trigger] s[k] as int)
    &&& forall|idx: int|
        0 <= idx < upto && idx < count && bit_at(words, idx) ==> #[trigger] s.contains(
            (base + 2 * idx) as usize,
        )
}

proof fn lemma_clear_word(w: u64, b: u64, c: u64)
    requires
        b < 64,
        c < 64,
    ensures
        ((w & !(1u64 << b)) >> c) & 1u64 == if c == b {
            0u64
        } else {
            (w >> c) & 1u64
        },
{
    assert(((w & !(1u64 << b)) >> c) & 1u64 == if c == b {
        0u64
    } else {
        (w >> c) & 1u64
    }) by (bit_vector)
        requires
            b < 64,
            c < 64,
    ;
}

proof fn lemma_word_ones(c: u64)
    requires
        c < 64,
    ensures
        (!0u64 >> c) & 1u64 == 1u64,
{
    assert((!0u64 >> c) & 1u64 == 1u64) by (bit_vector)
        requires
            c < 64,
    ;
}

proof fn lemma_word_zero(c: u64)
    ensures
        (0u64 >> c) & 1u64 == 0u64,
{
    assert((0u64 >> c) & 1u64 == 0u64) by (bit_vector);
}

proof fn lemma_clear_lowest(w: u64, t: u64, c: u64)
    requires
        t < 64,
        c < 64,
        (w >> t) & 1u64 == 1u64,
        w << ((64 - t) as u64) == 0,
    ensures
        ((w & ((w - 1) as u64)) >> c) & 1u64 == if c <= t {
            0u64
        } else {
            (w >> c) & 1u64
        },
{
    assert(((w & ((w - 1) as u64)) >> c) & 1u64 == if c <= t {
        0u64
    } else {
        (w >> c) & 1u64
    }) by (bit_vector)
        requires
            t < 64,
            c < 64,
            (w >> t) & 1u64 == 1u64,
            w << ((64 - t) as u64) == 0,
    ;
}

proof fn lemma_index_split(i: int)
    requires
        i >= 0,
    ensures
        i == 64 * (i / 64) + i % 64,
        0 <= i % 64 < 64,
{
}

/// A packed array of `n` words with every bit set.
pub fn all_set(n: usize) -> (r: Vec<u64>)
    ensures
        r.len() == n,
        forall|i: int| 0 <= i < 64 * n ==> #[trigger] bit_at(r@, i),
{
    let r = vec![!0u64; n];
    assert forall|i: int| 0 <= i < 64 * n implies #[trigger] bit_at(r@, i) by {
        lemma_index_split(i);
        lemma_word_ones((i % 64) as u64);
    }
    r
}

/// Sets every bit of `bits`.
pub fn set_all(bits: &mut Vec<u64>)
    ensures
        final(bits).len() == old(bits).len(),
        forall|i: int| 0 <= i < 64 * final(bits).len() ==> #[trigger] bit_at(final(bits)@, i),
{
    let n = bits.len();
    let mut w: usize = 0;
    while w < n
        invariant
            bits.len() == n,
            w <= n,
            forall|k: int| 0 <= k < w ==> #[trigger] bits@[k] == !0u64,
        decreases n - w,
    {
        bits.set(w, !0u64);
        w = w + 1;
    }
    assert forall|i: int| 0 <= i < 64 * n implies #[trigger] bit_at(bits@, i) by {
        lemma_index_split(i);
        lemma_word_ones((i % 64) as u64);
    }
}

/// Reads bit `idx`.
pub fn get_bit(bits: &Vec<u64>, idx: usize) -> (r: bool)
    requires
        idx < 64 * bits.len(),
    ensures
        r == bit_at(bits@, idx as int),
{
    let w = bits[idx / 64];
    let b = (idx % 64) as u64;
    (w >> b) & 1u64 == 1u64
}

/// Clears bit `idx` and leaves every other bit as it was.
pub fn clear_bit(bits: &mut Vec<u64>, idx: usize)
    requires
        idx < 64 * old(bits).len(),
    ensures
        final(bits).len() == old(bits).len(),
        forall|i: int|
            0 <= i < 64 * old(bits).len() ==> #[trigger] bit_at(final(bits)@, i) == (i != idx
                && bit_at(old(bits)@, i)),
{
    let wi = idx / 64;
    let b = (idx % 64) as u64;
    let w = bits[wi];
    bits.set(wi, w & !(1u64 << b));
    assert forall|i: int| 0 <= i < 64 * old(bits).len() implies #[trigger] bit_at(bits@, i) == (i
        != idx && bit_at(old(bits)@, i)) by {
        lemma_index_split(i);
        lemma_index_split(idx as int);
        lemma_clear_word(w, b, (i % 64) as u64);
    }
}

proof fn lemma_set_word(w: u64, b: u64, c: u64)
    requires
        b < 64,
        c < 64,
    ensures
        ((w | (1u64 << b)) >> c) & 1u64 == if c == b {
            1u64
        } else {
            (w >> c) & 1u64
        },
{
    assert(((w | (1u64 << b)) >> c) & 1u64 == if c == b {
        1u64
    } else {
        (w >> c) & 1u64
    }) by (bit_vector)
        requires
            b < 64,
            c < 64,
    ;
}

/// A packed array of `n` words with every bit clear.
pub fn all_clear(n: usize) -> (r: Vec<u64>)
    ensures
        r.len() == n,
        forall|i: int| 0 <= i < 64 * n ==> !#[trigger] bit_at(r@, i),
{
    let r = vec![0u64; n];
    assert forall|i: int| 0 <= i < 64 * n implies !#[trigger] bit_at(r@, i) by {
        lemma_index_split(i);
        lemma_word_zero((i % 64) as u64);
    }
    r
}

/// Sets bit `idx` and leaves every other bit as it was.
pub fn set_bit(bits: &mut Vec<u64>, idx: usize)
    requires
        idx < 64 * old(bits).len(),
    ensures
        final(bits).len() == old(bits).len(),
        forall|i: int|
            0 <= i < 64 * old(bits).len() ==> #[trigger] bit_at(final(bits)@, i) == (i == idx
                || bit_at(old(bits)@, i)),
{
    let wi = idx / 64;
    let b = (idx % 64) as u64;
    let w = bits[wi];
    bits.set(wi, w | (1u64 << b));
    assert forall|i: int| 0 <= i < 64 * old(bits).len() implies #[trigger] bit_at(bits@, i) == (i
        == idx || bit_at(old(bits)@, i)) by {
        lemma_index_split(i);
        lemma_index_split(idx as int);
        lemma_set_word(w, b, (i % 64) as u64);
    }
}

/// A copy of the words of `bits`.
pub fn copy_words(bits: &Vec<u64>) -> (r: Vec<u64>)
    ensures
        r@ == bits@,
{
    let mut r: Vec<u64> = Vec::with_capacity(bits.len());
    let mut i: usize = 0;
    while i < bits.len()
        invariant
            i <= bits.len(),
            r@ == bits@.subrange(0, i as int),
        decreases bits.len() - i,
    {
        r.push(bits[i]);
        i = i + 1;
        assert(r@ == bits@.subrange(0, i as int));
    }
    assert(bits@.subrange(0, bits.len() as int) == bits@);
    r
}

/// Appends to `out`, ascending, `base + 2 * idx` for every set bit `idx`
/// below `count`, walking each word by its lowest set bit.
pub fn push_marked(bits: &Vec<u64>, count: usize, base: usize, out: &mut Vec<usize>)
    requires
        count <= 64 * bits.len(),
        64 * bits.len() <= usize::MAX,
        base + 2 * count <= usize::MAX,
    ensures
        final(out)@.len() >= old(out)@.len(),
        final(out)@.subrange(0, old(out)@.len() as int) == old(out)@,
        lists_marked(
            final(out)@.subrange(old(out)@.len() as int, final(out)@.len() as int),
            bits@,
            count as int,
            base as int,
            64 * bits.len(),
        ),
{
    broadcast use axiom_u64_trailing_zeros;

    let ghost start = out@.len();
    let n = bits.len();
    let mut w: usize = 0;
    while w < n
        invariant
            n == bits.len(),
            w <= n,
            count <= 64 * n,
            64 * n <= usize::MAX,
            base + 2 * count <= usize::MAX,
            out@.len() >= start,
            out@.subrange(0, start as int) == old(out)@,
            lists_marked(
                out@.subrange(start as int, out@.len() as int),
                bits@,
                count as int,
                base as int,
                64 * w,
            ),
        decreases n - w,
    {
        let orig = bits[w];
        let mut word = orig;
        let ghost mut lo: int = 0;
        loop
            invariant_except_break
                0 <= lo <= 64,
                forall|c: int|
                    0 <= c < 64 ==> #[trigger] word_bit(word, c) == (c >= lo && word_bit(orig, c)),
                lists_marked(
                    out@.subrange(start as int, out@.len() as int),
                    bits@,
                    count as int,
                    base as int,
                    64 * w + lo,
                ),
            invariant
                n == bits.len(),
                w < n,
                orig == bits@[w as int],
                count <= 64 * n,
                64 * n <= usize::MAX,
                base + 2 * count <= usize::MAX,
                out@.len() >= start,
                out@.subrange(0, start as int) == old(out)@,
            ensures
                lists_marked(
                    out@.subrange(start as int, out@.len() as int),
                    bits@,
                    count as int,
                    base as int,
                    64 * w + 64,
                ),
            decreases 64 - lo,
        {
            let ghost s = out@.subrange(start as int, out@.len() as int);
            if word == 0 {
                proof {
                    assert(strictly_increasing(s));
                    assert forall|i: int| 0 <= i < 64 * w + 64 && i < count && bit_at(bits@, i)
                        implies #[trigger] s.contains((base + 2 * i) as usize) by {
                        lemma_index_split(i);
                        if i >= 64 * w + lo {
                            lemma_word_zero((i - 64 * w) as u64);
                            assert(word_bit(word, i - 64 * w));
                        }
                    }
                    assert(lists_marked(s, bits@, count as int, base as int, 64 * w + 64));
                }
                break;
            }
            let t = word.trailing_zeros() as usize;
            let idx = w * 64 + t;
            proof {
                assert(u64_trailing_zeros(word) == t);
                assert((word >> (t as u64)) & 1u64 == 1u64);
                assert(word << ((64 - t) as u64) == 0);
                assert(word_bit(word, t as int));
                assert(t as int >= lo);
                assert forall|c: int| lo <= c < t implies !#[trigger] word_bit(orig, c) by {
                    assert(!word_bit(word, c));
                }
                lemma_index_split(idx as int);
            }
            if idx >= count {
                proof {
                    assert forall|i: int| 0 <= i < 64 * w + 64 && i < count && bit_at(bits@, i)
                        implies #[trigger] s.contains((base + 2 * i) as usize) by {
                        lemma_index_split(i);
                        if i >= 64 * w + lo {
                            assert(word_bit(word, i - 64 * w));
                        }
                    }
                    assert(lists_marked(s, bits@, count as int, base as int, 64 * w + 64));
                }
                break;
            }
            let ghost before = out@;
            out.push(base + 2 * idx);
            proof {
                let ghost s0 = before.subrange(start as int, before.len() as int);
                let ghost s1 = out@.subrange(start as int, out@.len() as int);
                assert(s1 == s0.push((base + 2 * idx) as usize));
                assert forall|i: int| 0 <= i < 64 * w + t + 1 && i < count && bit_at(bits@, i)
                    implies #[trigger] s1.contains((base + 2 * i) as usize) by {
                    lemma_index_split(i);
                    if i < 64 * w + lo {
                        assert(s0.contains((base + 2 * i) as usize));
                        let k = choose|k: int| 0 <= k < s0.len() && s0[k] == (base + 2 * i) as usize;
                        assert(s1[k] == (base + 2 * i) as usize);
                    } else {
                        assert(i == idx);
                        assert(s1[s1.len() - 1] == (base + 2 * i) as usize);
                    }
                }
                assert forall|k: int| 0 <= k < s1.len() implies marked_value(
                    bits@,
                    count as int,
                    base as int,
                    64 * w + t + 1,
                    #[trigger] s1[k] as int,
                ) by {
                    if k < s0.len() {
                        assert(s1[k] == s0[k]);
                        assert(marked_value(bits@, count as int, base as int, 64 * w + lo, s0[k] as int));
                    } else {
                        assert(bit_at(bits@, idx as int));
                    }
                }
                assert forall|a: int, b: int| 0 <= a < b < s1.len() implies s1[a] < s1[b] by {
                    if b == s1.len() - 1 {
                        assert(marked_value(bits@, count as int, base as int, 64 * w + lo, s0[a] as int));
                    } else {
                        assert(s1[a] == s0[a] && s1[b] == s0[b]);
                    }
                }
                assert forall|c: int| 0 <= c < 64 implies #[trigger] word_bit(
                    word & ((word - 1) as u64),
                    c,
                ) == (c >= t + 1 && word_bit(orig, c)) by {
                    lemma_clear_lowest(word, t as u64, c as u64);
                    assert(word_bit(word, c) == (c >= lo && word_bit(orig, c)));
                }
                lo = t + 1;
            }
            word = word & (word - 1);
        }
        w = w + 1;
    }
}

} // verus!
