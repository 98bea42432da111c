//! Output records: newline-terminated decimal text, or fixed 8-byte
//! little-endian binary.
use vstd::prelude::*;

verus! {

/// Decimal digits of `n`, most significant first, as ASCII bytes.
pub open spec fn decimal_digits(n: nat) -> Seq<u8>
    decreases n,
{
    if n < 10 {
        seq![(48 + n) as u8]
    } else {
        decimal_digits(n / 10).push((48 + n % 10) as u8)
    }
}

/// One text record per value: its decimal digits, then a newline.
pub open spec fn text_records(s: Seq<usize>) -> Seq<u8>
    decreases s.len(),
{
    if s.len() == 0 {
        Seq::empty()
    } else {
        text_records(s.drop_last()) + decimal_digits(s.last() as nat).push(10u8)
    }
}

/// Byte `k` (0 = least significant) of `v`.
pub open spec fn le_byte(v: u64, k: int) -> u8 {
    ((v >> ((8 * k) as u64)) & 0xffu64) as u8
}

/// The 8 little-endian bytes of `v`.
pub open spec fn le_bytes(v: u64) -> Seq<u8> {
    seq![
        le_byte(v, 0),
        le_byte(v, 1),
        le_byte(v, 2),
        le_byte(v, 3),
        le_byte(v, 4),
        le_byte(v, 5),
        le_byte(v, 6),
        le_byte(v, 7),
    ]
}

/// One binary record per value: its 8 little-endian bytes.
pub open spec fn binary_records(s: Seq<u64>) -> Seq<u8>
    decreases s.len(),
{
    if s.len() == 0 {
        Seq::empty()
    } else {
        binary_records(s.drop_last()) + le_bytes(s.last())
    }
}

/// The value whose little-endian bytes are `b[at..at + 8]`.
pub open spec fn le_value(b: Seq<u8>, at: int) -> u64 {
    (b[at] as u64) | ((b[at + 1] as u64) << 8u64) | ((b[at + 2] as u64) << 16u64) | ((b[at
        + 3] as u64) << 24u64) | ((b[at + 4] as u64) << 32u64) | ((b[at + 5] as u64) << 40u64)
        | ((b[at + 6] as u64) << 48u64) | ((b[at + 7] as u64) << 56u64)
}

/// The values of the consecutive 8-byte records of `b`.
pub open spec fn record_values(b: Seq<u8>) -> Seq<u64> {
    Seq::new((b.len() / 8) as nat, |i: int| le_value(b, 8 * i))
}

/// `usize` values widened to `u64`.
pub open spec fn widen(s: Seq<usize>) -> Seq<u64> {
    s.map_values(|v: usize| v as u64)
}

/// Relies on `itoa::Buffer::format`: the decimal representation of `n`,
/// most significant digit first, with no sign or padding.
#[verifier::external_body]
fn decimal_bytes(n: usize) -> (r: Vec<u8>)
    ensures
        r@ == decimal_digits(n as nat),
{
    let mut buffer = itoa::Buffer::new();
    buffer.format(n).as_bytes().to_vec()
}

proof fn lemma_byte_roundtrip(v: u64)
    ensures
        le_value(le_bytes(v), 0) == v,
{
    let b = le_bytes(v);
    let b0 = ((v >> 0u64) & 0xffu64) as u8;
    let b1 = ((v >> 8u64) & 0xffu64) as u8;
    let b2 = ((v >> 16u64) & 0xffu64) as u8;
    let b3 = ((v >> 24u64) & 0xffu64) as u8;
    let b4 = ((v >> 32u64) & 0xffu64) as u8;
    let b5 = ((v >> 40u64) & 0xffu64) as u8;
    let b6 = ((v >> 48u64) & 0xffu64) as u8;
    let b7 = ((v >> 56u64) & 0xffu64) as u8;
    assert(b[0] == b0 && b[1] == b1 && b[2] == b2 && b[3] == b3);
    assert(b[4] == b4 && b[5] == b5 && b[6] == b6 && b[7] == b7);
    assert((b0 as u64) | ((b1 as u64) << 8u64) | ((b2 as u64) << 16u64) | ((b3 as u64) << 24u64)
        | ((b4 as u64) << 32u64) | ((b5 as u64) << 40u64) | ((b6 as u64) << 48u64) | ((
    b7 as u64) << 56u64) == v) by (bit_vector)
        requires
            b0 == ((v >> 0u64) & 0xffu64) as u8,
            b1 == ((v >> 8u64) & 0xffu64) as u8,
            b2 == ((v >> 16u64) & 0xffu64) as u8,
            b3 == ((v >> 24u64) & 0xffu64) as u8,
            b4 == ((v >> 32u64) & 0xffu64) as u8,
            b5 == ((v >> 40u64) & 0xffu64) as u8,
            b6 == ((v >> 48u64) & 0xffu64) as u8,
            b7 == ((v >> 56u64) & 0xffu64) as u8,
    ;
}

proof fn lemma_binary_records_len(s: Seq<u64>)
    ensures
        binary_records(s).len() == 8 * s.len(),
    decreases s.len(),
{
    if s.len() > 0 {
        lemma_binary_records_len(s.drop_last());
    }
}

/// Decoding the binary records of `s` gives back `s`.
pub proof fn lemma_binary_roundtrip(s: Seq<u64>)
    ensures
        record_values(binary_records(s)) == s,
    decreases s.len(),
{
    lemma_binary_records_len(s);
    if s.len() > 0 {
        let t = s.drop_last();
        lemma_binary_roundtrip(t);
        lemma_binary_records_len(t);
        let b = binary_records(s);
        let bt = binary_records(t);
        assert(b == bt + le_bytes(s.last()));
        assert forall|i: int| 0 <= i < s.len() implies #[trigger] record_values(b)[i] == s[i] by {
            if i < t.len() {
                assert(record_values(bt)[i] == t[i]);
                assert forall|k: int| 0 <= k < 8 implies #[trigger] b[8 * i + k] == bt[8 * i + k] by {}
            } else {
                lemma_byte_roundtrip(s.last());
                assert forall|k: int| 0 <= k < 8 implies #[trigger] b[8 * i + k] == le_bytes(s.last())[k] by {}
            }
        }
        assert(record_values(b) =~= s);
    } else {
        assert(record_values(binary_records(s)) =~= s);
    }
}

/// Appends the 8 little-endian bytes of `v` to `out`.
fn push_le_bytes(out: &mut Vec<u8>, v: u64)
    ensures
        final(out)@ == old(out)@ + le_bytes(v),
{
    let mut k: u64 = 0;
    let ghost start = out@;
    while k < 8
        invariant
            k <= 8,
            out@ == start + le_bytes(v).subrange(0, k as int),
        decreases 8 - k,
    {
        out.push(((v >> (8 * k)) & 0xff) as u8);
        k = k + 1;
        assert(out@ == start + le_bytes(v).subrange(0, k as int));
    }
    assert(le_bytes(v).subrange(0, 8) == le_bytes(v));
}

/// The text records of `values`: each value in decimal, then a newline.
pub fn encode_text(values: &Vec<usize>) -> (r: Vec<u8>)
    ensures
        r@ == text_records(values@),
{
    let mut out: Vec<u8> = Vec::new();
    let mut i: usize = 0;
    while i < values.len()
        invariant
            i <= values.len(),
            out@ == text_records(values@.subrange(0, i as int)),
        decreases values.len() - i,
    {
        let mut digits = decimal_bytes(values[i]);
        out.append(&mut digits);
        out.push(10u8);
        proof {
            let s = values@.subrange(0, i + 1);
            assert(s.drop_last() == values@.subrange(0, i as int));
        }
        i = i + 1;
    }
    assert(values@.subrange(0, values.len() as int) == values@);
    out
}

/// The binary records of `values`: 8 little-endian bytes each.
pub fn encode_binary(values: &Vec<usize>) -> (r: Vec<u8>)
    ensures
        r@ == binary_records(widen(values@)),
        r@.len() == 8 * values@.len(),
{
    let mut out: Vec<u8> = Vec::new();
    let mut i: usize = 0;
    while i < values.len()
        invariant
            i <= values.len(),
            out@ == binary_records(widen(values@.subrange(0, i as int))),
        decreases values.len() - i,
    {
        push_le_bytes(&mut out, values[i] as u64);
        proof {
            let s = widen(values@.subrange(0, i + 1));
            assert(s.drop_last() =~= widen(values@.subrange(0, i as int)));
        }
        i = i + 1;
    }
    assert(values@.subrange(0, values.len() as int) == values@);
    proof {
        lemma_binary_records_len(widen(values@));
    }
    out
}

/// The values of the 8-byte records of `bytes`; `None` when the length is
/// not a whole number of records.
pub fn decode_binary(bytes: &Vec<u8>) -> (r: Option<Vec<u64>>)
    ensures
        bytes@.len() % 8 != 0 ==> r is None,
        bytes@.len() % 8 == 0 ==> (r matches Some(v) && v@ == record_values(bytes@)),
{
    if bytes.len() % 8 != 0 {
        return None;
    }
    let n = bytes.len() / 8;
    let mut out: Vec<u64> = Vec::new();
    let mut i: usize = 0;
    while i < n
        invariant
            n == bytes.len() / 8,
            bytes.len() % 8 == 0,
            i <= n,
            out@ == record_values(bytes@).subrange(0, i as int),
        decreases n - i,
    {
        let at = 8 * i;
        let v = (bytes[at] as u64) | ((bytes[at + 1] as u64) << 8u64) | ((bytes[at + 2] as u64)
            << 16u64) | ((bytes[at + 3] as u64) << 24u64) | ((bytes[at + 4] as u64) << 32u64) | ((
        bytes[at + 5] as u64) << 40u64) | ((bytes[at + 6] as u64) << 48u64) | ((bytes[at
            + 7] as u64) << 56u64);
        out.push(v);
        i = i + 1;
        assert(out@ == record_values(bytes@).subrange(0, i as int));
    }
    assert(record_values(bytes@).subrange(0, n as int) == record_values(bytes@));
    Some(out)
}

} // verus!
