//! Byte-level helpers for the fixed wire format: big-endian integer
//! fields, space-padded identity fields and the decimal sequence number.

use vstd::prelude::*;
use vstd::arithmetic::div_mod::{lemma_fundamental_div_mod, lemma_breakdown, lemma_div_is_ordered};
use crate::error::MsError;

verus! {

broadcast use vstd::slice::group_slice_axioms;

/// The big-endian 16-bit value at offset `i`.
pub open spec fn be16(s: Seq<u8>, i: int) -> int {
    (s[i] as int) * 256 + (s[i + 1] as int)
}

/// The big-endian 32-bit value at offset `i`.
pub open spec fn be32(s: Seq<u8>, i: int) -> int {
    be16(s, i) * 65536 + be16(s, i + 2)
}

/// The big-endian 64-bit value at offset `i`.
pub open spec fn be64(s: Seq<u8>, i: int) -> int {
    be32(s, i) * 0x1_0000_0000 + be32(s, i + 4)
}

/// The little-endian 32-bit value at offset `i`.
pub open spec fn le32(s: Seq<u8>, i: int) -> int {
    (s[i + 3] as int) * 0x100_0000 + (s[i + 2] as int) * 0x1_0000 + (s[i + 1] as int) * 0x100 + (
    s[i] as int)
}

/// The little-endian 64-bit value at offset `i`.
pub open spec fn le64(s: Seq<u8>, i: int) -> int {
    le32(s, i + 4) * 0x1_0000_0000 + le32(s, i)
}

/// A 16-bit two's-complement reading of an unsigned value.
pub open spec fn as_i16(v: int) -> int {
    if v >= 0x8000 {
        v - 0x1_0000
    } else {
        v
    }
}

/// A 32-bit two's-complement reading of an unsigned value.
pub open spec fn as_i32(v: int) -> int {
    if v >= 0x8000_0000 {
        v - 0x1_0000_0000
    } else {
        v
    }
}

/// The unsigned 32-bit bit pattern of a signed value.
pub open spec fn bits_of_i32(x: int) -> int {
    if x >= 0 {
        x
    } else {
        x + 0x1_0000_0000
    }
}

/// Reads the big-endian 16-bit field at `i`.
pub fn read_be16(buf: &[u8], i: usize) -> (r: u16)
    requires
        i + 2 <= buf@.len(),
    ensures
        r == be16(buf@, i as int),
{
    let n: usize = buf.len();
    assert(i + 2 <= n);
    (buf[i] as u16) * 256 + (buf[i + 1] as u16)
}

/// Reads the big-endian 32-bit field at `i`.
pub fn read_be32(buf: &[u8], i: usize) -> (r: u32)
    requires
        i + 4 <= buf@.len(),
    ensures
        r == be32(buf@, i as int),
{
    let n: usize = buf.len();
    assert(i + 4 <= n);
    (read_be16(buf, i) as u32) * 65536 + (read_be16(buf, i + 2) as u32)
}

/// Reads the big-endian 64-bit field at `i`.
pub fn read_be64(buf: &[u8], i: usize) -> (r: u64)
    requires
        i + 8 <= buf@.len(),
    ensures
        r == be64(buf@, i as int),
{
    let n: usize = buf.len();
    assert(i + 8 <= n);
    (read_be32(buf, i) as u64) * 0x1_0000_0000 + (read_be32(buf, i + 4) as u64)
}

/// Reads the little-endian 32-bit field at `i`.
pub fn read_le32(buf: &[u8], i: usize) -> (r: u32)
    requires
        i + 4 <= buf@.len(),
    ensures
        r == le32(buf@, i as int),
{
    let n: usize = buf.len();
    assert(i + 4 <= n);
    (buf[i + 3] as u32) * 0x100_0000 + (buf[i + 2] as u32) * 0x1_0000 + (buf[i + 1] as u32) * 0x100
        + (buf[i] as u32)
}

/// Reads the little-endian 64-bit field at `i`.
pub fn read_le64(buf: &[u8], i: usize) -> (r: u64)
    requires
        i + 8 <= buf@.len(),
    ensures
        r == le64(buf@, i as int),
{
    let n: usize = buf.len();
    assert(i + 8 <= n);
    (read_le32(buf, i + 4) as u64) * 0x1_0000_0000 + (read_le32(buf, i) as u64)
}

/// Reads the big-endian 16-bit field at `i` as a signed value.
pub fn read_be16_signed(buf: &[u8], i: usize) -> (r: i16)
    requires
        i + 2 <= buf@.len(),
    ensures
        r as int == as_i16(be16(buf@, i as int)),
{
    let v: u16 = read_be16(buf, i);
    if v >= 0x8000 {
        let d: i32 = 0x1_0000 - (v as i32);
        (-d) as i16
    } else {
        v as i16
    }
}

/// Reads the big-endian 32-bit field at `i` as a signed value.
pub fn read_be32_signed(buf: &[u8], i: usize) -> (r: i32)
    requires
        i + 4 <= buf@.len(),
    ensures
        r as int == as_i32(be32(buf@, i as int)),
{
    let v: u32 = read_be32(buf, i);
    if v >= 0x8000_0000 {
        let d: i64 = 0x1_0000_0000 - (v as i64);
        (-d) as i32
    } else {
        v as i32
    }
}

/// Whether `p` is an initial segment of `s`.
pub open spec fn seq_prefix(p: Seq<u8>, s: Seq<u8>) -> bool {
    p.len() <= s.len() && forall|i: int| 0 <= i < p.len() ==> #[trigger] s[i] == p[i]
}

/// Appends the big-endian bytes of a 16-bit value.
pub fn push_be16(out: &mut Vec<u8>, x: u16)
    ensures
        final(out)@.len() == old(out)@.len() + 2,
        seq_prefix(old(out)@, final(out)@),
        be16(final(out)@, old(out)@.len() as int) == x,
{
    out.push((x / 256) as u8);
    out.push((x % 256) as u8);
    proof {
        assert(out@ =~= old(out)@ + seq![(x / 256) as u8, (x % 256) as u8]);
    }
}

/// Appends the big-endian bytes of a 32-bit value.
pub fn push_be32(out: &mut Vec<u8>, x: u32)
    ensures
        final(out)@.len() == old(out)@.len() + 4,
        seq_prefix(old(out)@, final(out)@),
        be32(final(out)@, old(out)@.len() as int) == x,
{
    let hi: u16 = (x / 65536) as u16;
    let lo: u16 = (x % 65536) as u16;
    push_be16(out, hi);
    push_be16(out, lo);
}

/// Appends the big-endian bytes of a 64-bit value.
pub fn push_be64(out: &mut Vec<u8>, x: u64)
    ensures
        final(out)@.len() == old(out)@.len() + 8,
        seq_prefix(old(out)@, final(out)@),
        be64(final(out)@, old(out)@.len() as int) == x,
{
    let hi: u32 = (x / 0x1_0000_0000) as u32;
    let lo: u32 = (x % 0x1_0000_0000) as u32;
    push_be32(out, hi);
    push_be32(out, lo);
}

/// Appends the big-endian bytes of the bit pattern of a signed 16-bit
/// value.
pub fn push_be16_signed(out: &mut Vec<u8>, x: i16)
    ensures
        final(out)@.len() == old(out)@.len() + 2,
        seq_prefix(old(out)@, final(out)@),
        as_i16(be16(final(out)@, old(out)@.len() as int)) == x,
{
    let v: u16 = if x >= 0 {
        x as u16
    } else {
        let d: i32 = 0x1_0000 + (x as i32);
        d as u16
    };
    push_be16(out, v);
}

/// Appends the big-endian bytes of the bit pattern of a signed 32-bit
/// value.
pub fn push_be32_signed(out: &mut Vec<u8>, x: i32)
    ensures
        final(out)@.len() == old(out)@.len() + 4,
        seq_prefix(old(out)@, final(out)@),
        as_i32(be32(final(out)@, old(out)@.len() as int)) == x,
{
    let v: u32 = if x >= 0 {
        x as u32
    } else {
        let d: i64 = 0x1_0000_0000 + (x as i64);
        d as u32
    };
    push_be32(out, v);
}

/// Appends the little-endian bytes of a 32-bit value.
pub fn push_le32(out: &mut Vec<u8>, x: u32)
    ensures
        final(out)@.len() == old(out)@.len() + 4,
        seq_prefix(old(out)@, final(out)@),
        le32(final(out)@, old(out)@.len() as int) == x,
{
    out.push((x % 0x100) as u8);
    out.push((x / 0x100 % 0x100) as u8);
    out.push((x / 0x1_0000 % 0x100) as u8);
    out.push((x / 0x100_0000) as u8);
    proof {
        assert(out@.len() == old(out)@.len() + 4);
    }
}

/// Appends the little-endian bytes of a 64-bit value.
pub fn push_le64(out: &mut Vec<u8>, x: u64)
    ensures
        final(out)@.len() == old(out)@.len() + 8,
        seq_prefix(old(out)@, final(out)@),
        le64(final(out)@, old(out)@.len() as int) == x,
{
    let hi: u32 = (x / 0x1_0000_0000) as u32;
    let lo: u32 = (x % 0x1_0000_0000) as u32;
    push_le32(out, lo);
    push_le32(out, hi);
}

/// Whether a byte may stand in a trimmed identity field: printable and
/// not the space used as wire padding.
pub open spec fn field_keep(b: u8) -> bool {
    33 <= b <= 126
}

/// The identity field read from its padded wire form: the longest prefix
/// of printable, non-padding bytes.
pub open spec fn trim_field(s: Seq<u8>) -> Seq<u8>
    decreases s.len(),
{
    if s.len() == 0 || !field_keep(s[0]) {
        Seq::empty()
    } else {
        seq![s[0]] + trim_field(s.subrange(1, s.len() as int))
    }
}

/// The trimmed field is the prefix that ends at the first non-kept byte.
proof fn lemma_trim_characterize(s: Seq<u8>, i: int)
    requires
        0 <= i <= s.len(),
        forall|j: int| 0 <= j < i ==> field_keep(#[trigger] s[j]),
        i < s.len() ==> !field_keep(s[i]),
    ensures
        trim_field(s) == s.subrange(0, i),
    decreases s.len(),
{
    if s.len() == 0 {
        assert(trim_field(s) =~= s.subrange(0, i));
    } else if i == 0 {
        assert(trim_field(s) =~= s.subrange(0, 0));
    } else {
        let tail = s.subrange(1, s.len() as int);
        lemma_trim_characterize(tail, i - 1);
        assert(trim_field(s) == seq![s[0]] + tail.subrange(0, i - 1));
        assert(seq![s[0]] + tail.subrange(0, i - 1) =~= s.subrange(0, i));
    }
}

/// Padding with spaces on the right does not change the trimmed field.
pub proof fn lemma_trim_pad(s: Seq<u8>, k: nat)
    requires
        forall|j: int| 0 <= j < s.len() ==> field_keep(#[trigger] s[j]),
    ensures
        trim_field(s + Seq::new(k, |i: int| 32u8)) == s,
    decreases s.len(),
{
    let padded = s + Seq::new(k, |i: int| 32u8);
    if s.len() == 0 {
        if k == 0 {
            assert(trim_field(padded) =~= s);
        } else {
            assert(padded[0] == 32u8);
            assert(trim_field(padded) =~= s);
        }
    } else {
        let tail = s.subrange(1, s.len() as int);
        lemma_trim_pad(tail, k);
        assert(padded.subrange(1, padded.len() as int) =~= tail + Seq::new(k, |i: int| 32u8));
        assert(trim_field(padded) == seq![s[0]] + tail);
        assert(seq![s[0]] + tail =~= s);
    }
}

/// Reads and trims the identity field in `buf[start..end]`.
pub fn read_field(buf: &[u8], start: usize, end: usize) -> (r: Vec<u8>)
    requires
        start <= end <= buf@.len(),
    ensures
        r@ == trim_field(buf@.subrange(start as int, end as int)),
        forall|j: int| 0 <= j < r@.len() ==> field_keep(#[trigger] r@[j]),
        r@.len() <= end - start,
{
    let ghost s = buf@.subrange(start as int, end as int);
    let mut r: Vec<u8> = Vec::new();
    let mut i: usize = start;
    while i < end && 33 <= buf[i] && buf[i] <= 126
        invariant
            start <= i <= end <= buf@.len(),
            s == buf@.subrange(start as int, end as int),
            r@ == s.subrange(0, i - start),
            forall|j: int| 0 <= j < i - start ==> field_keep(#[trigger] s[j]),
        decreases end - i,
    {
        proof {
            assert(s.len() == end - start);
            assert(0 <= i - start < s.len());
            assert(s[i - start] == buf@[i as int]);
        }
        r.push(buf[i]);
        proof {
            assert(r@ =~= s.subrange(0, i + 1 - start));
            assert(forall|j: int|
                0 <= j < i + 1 - start ==> field_keep(#[trigger] s[j]));
        }
        i = i + 1;
    }
    proof {
        lemma_trim_characterize(s, i - start);
    }
    r
}

/// Appends an identity field padded with spaces to `width`.
pub fn push_field(out: &mut Vec<u8>, field: &Vec<u8>, width: usize)
    requires
        field@.len() <= width,
        forall|j: int| 0 <= j < field@.len() ==> field_keep(#[trigger] field@[j]),
    ensures
        final(out)@.len() == old(out)@.len() + width,
        seq_prefix(old(out)@, final(out)@),
        trim_field(final(out)@.subrange(old(out)@.len() as int, final(out)@.len() as int))
            == field@,
{
    let ghost base = out@.len() as int;
    let mut i: usize = 0;
    while i < field.len()
        invariant
            i <= field@.len() <= width,
            out@ == old(out)@ + field@.subrange(0, i as int),
            forall|j: int| 0 <= j < field@.len() ==> field_keep(#[trigger] field@[j]),
        decreases field@.len() - i,
    {
        out.push(field[i]);
        proof {
            assert(out@ =~= old(out)@ + field@.subrange(0, i + 1));
        }
        i = i + 1;
    }
    let ghost k = (width - field@.len()) as nat;
    let mut p: usize = field.len();
    while p < width
        invariant
            field@.len() <= p <= width,
            out@ == old(out)@ + field@ + Seq::new((p - field@.len()) as nat, |j: int| 32u8),
        decreases width - p,
    {
        out.push(32u8);
        proof {
            assert(out@ =~= old(out)@ + field@ + Seq::new(
                (p + 1 - field@.len()) as nat,
                |j: int| 32u8,
            ));
        }
        p = p + 1;
    }
    proof {
        assert(out@.subrange(base, out@.len() as int) =~= field@ + Seq::new(k, |j: int| 32u8));
        lemma_trim_pad(field@, k);
    }
}

/// Whether the six bytes at `i` are decimal digits.
pub open spec fn digits6_ok(s: Seq<u8>, i: int) -> bool {
    forall|j: int| i <= j < i + 6 ==> 48 <= #[trigger] s[j] <= 57
}

/// The value of the six-digit decimal number at `i`.
pub open spec fn seq_num_val(s: Seq<u8>, i: int) -> int {
    (s[i] - 48) * 100_000 + (s[i + 1] - 48) * 10_000 + (s[i + 2] - 48) * 1_000 + (s[i + 3] - 48)
        * 100 + (s[i + 4] - 48) * 10 + (s[i + 5] - 48)
}

/// Reads the six-digit decimal sequence number at `i`, if well formed.
pub fn read_seq_num(buf: &[u8], i: usize) -> (r: Result<u32, MsError>)
    requires
        i + 6 <= buf@.len(),
    ensures
        r matches Ok(v) ==> digits6_ok(buf@, i as int) && v == seq_num_val(buf@, i as int),
        r is Ok <==> digits6_ok(buf@, i as int),
        r is Err ==> r == Err::<u32, MsError>(MsError::MalformedHeader),
{
    let b0: u8 = buf[i];
    let b1: u8 = buf[i + 1];
    let b2: u8 = buf[i + 2];
    let b3: u8 = buf[i + 3];
    let b4: u8 = buf[i + 4];
    let b5: u8 = buf[i + 5];
    if b0 < 48 || b0 > 57 || b1 < 48 || b1 > 57 || b2 < 48 || b2 > 57 || b3 < 48 || b3 > 57 || b4
        < 48 || b4 > 57 || b5 < 48 || b5 > 57 {
        return Err(MsError::MalformedHeader);
    }
    let v: u32 = ((b0 - 48) as u32) * 100_000 + ((b1 - 48) as u32) * 10_000 + ((b2 - 48) as u32)
        * 1_000 + ((b3 - 48) as u32) * 100 + ((b4 - 48) as u32) * 10 + ((b5 - 48) as u32);
    Ok(v)
}

/// Appends the six-digit decimal form of `x`, zero padded.
pub fn push_seq_num(out: &mut Vec<u8>, x: u32)
    requires
        x <= 999_999,
    ensures
        final(out)@.len() == old(out)@.len() + 6,
        seq_prefix(old(out)@, final(out)@),
        digits6_ok(final(out)@, old(out)@.len() as int),
        seq_num_val(final(out)@, old(out)@.len() as int) == x,
{
    let d0: u8 = (x / 100_000) as u8;
    let d1: u8 = (x / 10_000 % 10) as u8;
    let d2: u8 = (x / 1_000 % 10) as u8;
    let d3: u8 = (x / 100 % 10) as u8;
    let d4: u8 = (x / 10 % 10) as u8;
    let d5: u8 = (x % 10) as u8;
    proof {
        lemma_digits_recompose(x as int);
    }
    out.push(d0 + 48);
    out.push(d1 + 48);
    out.push(d2 + 48);
    out.push(d3 + 48);
    out.push(d4 + 48);
    out.push(d5 + 48);
}

/// A six-digit number is the weighted sum of its decimal digits.
proof fn lemma_digits_recompose(x: int)
    requires
        0 <= x <= 999_999,
    ensures
        x == (x / 100_000) * 100_000 + (x / 10_000 % 10) * 10_000 + (x / 1_000 % 10) * 1_000 + (x
            / 100 % 10) * 100 + (x / 10 % 10) * 10 + (x % 10),
        x / 100_000 <= 9,
{
    lemma_div_is_ordered(x, 999_999, 100_000);
    lemma_fundamental_div_mod(x, 100_000);
    lemma_breakdown(x, 10_000, 10);
    lemma_breakdown(x, 1_000, 10);
    lemma_breakdown(x, 100, 10);
    lemma_breakdown(x, 10, 10);
}

} // verus!
