//! The record decoder and encoder: the fixed-format framed record, its
//! identity, timing and typed sample buffer.
//!
//! A record is decoded from a fixed-length frame: a decimal sequence
//! number, a data-quality letter, space-padded identity fields, the
//! compact time tuple, a factor/multiplier sample-rate pair (a negative
//! stored value denotes a period, to be reciprocated), a sample count
//! and, through the record's own descriptor block, a sample-encoding
//! tag, byte order and record length. Sample payloads of the native
//! encodings are decoded in place; compressed payloads belong to an
//! external decompressor and are only checked for consistency here.

use vstd::prelude::*;
use crate::error::MsError;
use crate::time::{BTime, btime_ts, btime_valid, encodable, decode as time_decode,
    encode as time_encode, lemma_valid_ts_encodable, lemma_btime_ts_mod};
use crate::wire::{be16, be32, le32, le64, be64, as_i16, as_i32, bits_of_i32, field_keep,
    trim_field, digits6_ok, seq_num_val, seq_prefix, read_be16, read_be32, read_le32, read_le64,
    read_be64, read_be16_signed, read_be32_signed, read_seq_num, read_field, push_be16, push_be32,
    push_be16_signed, push_be32_signed, push_be64, push_le32, push_le64, push_field,
    push_seq_num};

verus! {

broadcast use vstd::slice::group_slice_axioms;

/// The sample encoding named by a record's descriptor block. The native
/// kinds are decoded by this crate; a compressed kind carries its wire
/// tag and needs the external decompressor.
#[derive(Clone, Copy, Debug, PartialEq, Eq, Structural)]
pub enum EncodingKind {
    Ascii,
    Int32,
    Float32,
    Float64,
    Compressed { tag: u8 },
}

/// The encoding kind denoted by a wire tag, if any. Tags 10 and 11 are
/// the two compressed families the format commonly carries.
pub open spec fn kind_of_tag(tag: u8) -> Option<EncodingKind> {
    if tag == 0 {
        Some(EncodingKind::Ascii)
    } else if tag == 3 {
        Some(EncodingKind::Int32)
    } else if tag == 4 {
        Some(EncodingKind::Float32)
    } else if tag == 5 {
        Some(EncodingKind::Float64)
    } else if tag == 10 || tag == 11 {
        Some(EncodingKind::Compressed { tag })
    } else {
        None
    }
}

/// Typed sample storage. Floating-point samples are held as their wire
/// bit patterns; reinterpreting them as numbers is the caller's affair,
/// outside this crate's contracts.
#[derive(Debug)]
pub enum Data {
    Int(Vec<i32>),
    Float(Vec<u32>),
    Double(Vec<u64>),
    Ascii(Vec<u8>),
}

impl Data {
    /// The number of samples held.
    pub open spec fn spec_len(&self) -> int {
        match self {
            Data::Int(v) => v@.len() as int,
            Data::Float(v) => v@.len() as int,
            Data::Double(v) => v@.len() as int,
            Data::Ascii(v) => v@.len() as int,
        }
    }

    /// The type letter of the stored samples.
    pub open spec fn spec_type_char(&self) -> char {
        match self {
            Data::Int(_) => 'i',
            Data::Float(_) => 'f',
            Data::Double(_) => 'd',
            Data::Ascii(_) => 'a',
        }
    }

    /// The number of samples held.
    pub fn len(&self) -> (n: usize)
        ensures
            n == self.spec_len(),
    {
        match self {
            Data::Int(v) => v.len(),
            Data::Float(v) => v.len(),
            Data::Double(v) => v.len(),
            Data::Ascii(v) => v.len(),
        }
    }
}

/// Whether typed storage agrees with the encoding kind. A compressed
/// kind constrains nothing: its storage is whatever the external
/// decompressor handed back.
pub open spec fn data_kind_ok(d: Data, k: EncodingKind) -> bool {
    match k {
        EncodingKind::Ascii => d is Ascii,
        EncodingKind::Int32 => d is Int,
        EncodingKind::Float32 => d is Float,
        EncodingKind::Float64 => d is Double,
        EncodingKind::Compressed { .. } => true,
    }
}

/// Bytes per sample of each native storage form.
pub open spec fn sample_size_of(d: Data) -> int {
    match d {
        Data::Int(_) => 4,
        Data::Float(_) => 4,
        Data::Double(_) => 8,
        Data::Ascii(_) => 1,
    }
}

/// Bytes per sample of a native encoding kind.
pub open spec fn sample_size_of_kind(k: EncodingKind) -> int {
    match k {
        EncodingKind::Ascii => 1,
        EncodingKind::Int32 => 4,
        EncodingKind::Float32 => 4,
        EncodingKind::Float64 => 8,
        EncodingKind::Compressed { .. } => 1,
    }
}

/// Powers of two, for the record length held as an exponent.
pub open spec fn pow2_spec(e: nat) -> int
    decreases e,
{
    if e == 0 {
        1
    } else {
        2 * pow2_spec((e - 1) as nat)
    }
}

proof fn lemma_pow2_le(a: nat, b: nat)
    requires
        a <= b,
    ensures
        pow2_spec(a) <= pow2_spec(b),
        1 <= pow2_spec(a),
    decreases b,
{
    if b > 0 {
        if a == b {
            lemma_pow2_le(0, (b - 1) as nat);
        } else {
            lemma_pow2_le(a, (b - 1) as nat);
        }
    }
}

/// The record length denoted by exponent `e`.
pub fn reclen_of_exp(e: u8) -> (r: u32)
    requires
        e <= 20,
    ensures
        r == pow2_spec(e as nat),
        1 <= r <= 0x10_0000,
{
    let mut r: u32 = 1;
    let mut i: u8 = 0;
    while i < e
        invariant
            i <= e <= 20,
            r == pow2_spec(i as nat),
            r <= 0x10_0000,
        decreases e - i,
    {
        proof {
            lemma_pow2_le(i as nat + 1, 20);
            assert(pow2_spec(20) == 0x10_0000) by {
                reveal_with_fuel(pow2_spec, 21);
            }
        }
        r = r * 2;
        i = i + 1;
    }
    proof {
        lemma_pow2_le(e as nat, 20);
    }
    r
}

/// The samples-per-second numerator of the wire factor/multiplier pair.
/// A negative factor or multiplier denotes "period, not rate": its
/// magnitude divides instead of multiplying. A zero in either place
/// leaves no rate at all.
pub open spec fn rate_num_of(f: int, m: int) -> int {
    if f > 0 && m > 0 {
        f * m
    } else if f > 0 && m < 0 {
        f
    } else if f < 0 && m > 0 {
        m
    } else if f < 0 && m < 0 {
        1
    } else {
        0
    }
}

/// The samples-per-second denominator of the wire factor/multiplier
/// pair.
pub open spec fn rate_den_of(f: int, m: int) -> int {
    if f > 0 && m > 0 {
        1
    } else if f > 0 && m < 0 {
        -m
    } else if f < 0 && m > 0 {
        -f
    } else if f < 0 && m < 0 {
        f * m
    } else {
        1
    }
}

/// The time tuple held in the header bytes.
pub open spec fn header_btime(s: Seq<u8>) -> BTime {
    BTime {
        year: be16(s, 20) as u16,
        day: be16(s, 22) as u16,
        hour: s[24],
        min: s[25],
        sec: s[26],
        unused: s[27],
        fract: be16(s, 28) as u16,
    }
}

/// Whether a byte is one of the data-quality letters the format allows.
pub open spec fn quality_ok(b: u8) -> bool {
    b == 68 || b == 82 || b == 81 || b == 77
}

/// The position of the record's descriptor block (type 1000), found by
/// following the chain of block offsets from `bo`. The chain must move
/// strictly forward and stay inside the buffer.
pub open spec fn find_b1000(s: Seq<u8>, bo: int) -> Option<int>
    decreases s.len() - bo,
{
    if bo < 48 || bo + 8 > s.len() {
        None
    } else if be16(s, bo) == 1000 {
        Some(bo)
    } else {
        let nxt = be16(s, bo + 2);
        if nxt > bo && nxt + 8 <= s.len() {
            find_b1000(s, nxt)
        } else {
            None
        }
    }
}

/// An unsigned 32-bit sample read in the record's byte order.
pub open spec fn wire_u32_at(s: Seq<u8>, i: int, wo: u8) -> int {
    if wo == 0 {
        le32(s, i)
    } else {
        be32(s, i)
    }
}

/// An unsigned 64-bit sample read in the record's byte order.
pub open spec fn wire_u64_at(s: Seq<u8>, i: int, wo: u8) -> int {
    if wo == 0 {
        le64(s, i)
    } else {
        be64(s, i)
    }
}

/// Whether typed storage holds exactly the payload bytes at `off`.
pub open spec fn payload_ok(d: Data, s: Seq<u8>, off: int, n: int, wo: u8) -> bool {
    match d {
        Data::Int(v) => v@.len() == n && forall|j: int|
            0 <= j < n ==> #[trigger] v@[j] as int == as_i32(wire_u32_at(s, off + 4 * j, wo)),
        Data::Float(v) => v@.len() == n && forall|j: int|
            0 <= j < n ==> #[trigger] v@[j] as int == wire_u32_at(s, off + 4 * j, wo),
        Data::Double(v) => v@.len() == n && forall|j: int|
            0 <= j < n ==> #[trigger] v@[j] as int == wire_u64_at(s, off + 8 * j, wo),
        Data::Ascii(v) => v@ == s.subrange(off, off + n),
    }
}

/// An identity field: short, and nothing but printable non-padding
/// bytes.
pub open spec fn id_field_wf(f: Seq<u8>, width: int) -> bool {
    f.len() <= width && forall|j: int| 0 <= j < f.len() ==> field_keep(#[trigger] f[j])
}

/// A decoded record: identity, timing, rate and typed samples. Identity
/// and timing are set by the decoder and read-only thereafter.
#[allow(non_camel_case_types)]
#[derive(Debug)]
pub struct ms_record {
    pub sequence_number: u32,
    pub data_quality: u8,
    pub network: Vec<u8>,
    pub station: Vec<u8>,
    pub location: Vec<u8>,
    pub channel: Vec<u8>,
    pub start_time: i64,
    pub rate_factor: i16,
    pub rate_mult: i16,
    pub encoding: EncodingKind,
    pub word_order: u8,
    pub reclen_exp: u8,
    pub data_offset: u16,
    pub activity_flags: u8,
    pub io_flags: u8,
    pub quality_flags: u8,
    pub time_correction: i32,
    pub data: Data,
}


/// The least sample of integer data; an empty buffer has none, and
/// text or floating bit patterns carry no verified order here.
pub fn data_min(d: &Data) -> (r: Result<i32, MsError>)
    ensures
        match d {
            Data::Int(v) => if v@.len() == 0 {
                r == Err::<i32, MsError>(MsError::EmptyData)
            } else {
                r matches Ok(x) && is_min_i32(x as int, v@)
            },
            _ => r == Err::<i32, MsError>(MsError::TypeMismatch),
        },
{
    match d {
        Data::Int(v) => {
            if v.len() == 0 {
                return Err(MsError::EmptyData);
            }
            let mut m: i32 = v[0];
            proof {
                assert(v@.subrange(0, 1)[0] == v@[0]);
            }
            let mut i: usize = 1;
            while i < v.len()
                invariant
                    1 <= i <= v@.len(),
                    is_min_i32(m as int, v@.subrange(0, i as int)),
                decreases v@.len() - i,
            {
                if v[i] < m {
                    m = v[i];
                }
                proof {
                    assert(v@.subrange(0, i + 1)[i as int] == v@[i as int]);
                    assert(forall|t: int|
                        0 <= t < i ==> v@.subrange(0, i + 1)[t] == v@.subrange(0, i as int)[t]);
                }
                i = i + 1;
            }
            proof {
                assert(v@.subrange(0, v@.len() as int) =~= v@);
            }
            Ok(m)
        },
        _ => Err(MsError::TypeMismatch),
    }
}

/// The greatest sample of integer data; refused in the same cases as
/// `data_min`.
pub fn data_max(d: &Data) -> (r: Result<i32, MsError>)
    ensures
        match d {
            Data::Int(v) => if v@.len() == 0 {
                r == Err::<i32, MsError>(MsError::EmptyData)
            } else {
                r matches Ok(x) && is_max_i32(x as int, v@)
            },
            _ => r == Err::<i32, MsError>(MsError::TypeMismatch),
        },
{
    match d {
        Data::Int(v) => {
            if v.len() == 0 {
                return Err(MsError::EmptyData);
            }
            let mut m: i32 = v[0];
            proof {
                assert(v@.subrange(0, 1)[0] == v@[0]);
            }
            let mut i: usize = 1;
            while i < v.len()
                invariant
                    1 <= i <= v@.len(),
                    is_max_i32(m as int, v@.subrange(0, i as int)),
                decreases v@.len() - i,
            {
                if v[i] > m {
                    m = v[i];
                }
                proof {
                    assert(v@.subrange(0, i + 1)[i as int] == v@[i as int]);
                    assert(forall|t: int|
                        0 <= t < i ==> v@.subrange(0, i + 1)[t] == v@.subrange(0, i as int)[t]);
                }
                i = i + 1;
            }
            proof {
                assert(v@.subrange(0, v@.len() as int) =~= v@);
            }
            Ok(m)
        },
        _ => Err(MsError::TypeMismatch),
    }
}

impl ms_record {
    /// The number of samples held.
    pub open spec fn npts_spec(&self) -> int {
        self.data.spec_len()
    }

    /// The samples-per-second numerator.
    pub open spec fn rate_num(&self) -> int {
        rate_num_of(self.rate_factor as int, self.rate_mult as int)
    }

    /// The samples-per-second denominator.
    pub open spec fn rate_den(&self) -> int {
        rate_den_of(self.rate_factor as int, self.rate_mult as int)
    }

    /// The record frame length in bytes.
    pub open spec fn reclen_spec(&self) -> int {
        pow2_spec(self.reclen_exp as nat)
    }

    /// Well-formedness: what the decoder establishes and every consumer
    /// may rely on.
    pub open spec fn wf(&self) -> bool {
        &&& self.sequence_number <= 999_999
        &&& quality_ok(self.data_quality)
        &&& id_field_wf(self.network@, 2)
        &&& id_field_wf(self.station@, 5)
        &&& id_field_wf(self.location@, 2)
        &&& id_field_wf(self.channel@, 3)
        &&& encodable(self.start_time as int)
        &&& (self.start_time as int) % 100 == 0
        &&& self.npts_spec() <= 65_535
        &&& self.npts_spec() > 0 ==> 1 <= self.rate_num() <= 0x4000_0000 && 1 <= self.rate_den()
            <= 86_400
        &&& data_kind_ok(self.data, self.encoding)
        &&& self.word_order <= 1
        &&& 7 <= self.reclen_exp <= 20
        &&& 56 <= self.data_offset
        &&& !(self.encoding is Compressed) ==> self.data_offset + self.npts_spec()
            * sample_size_of(self.data) <= self.reclen_spec()
    }
}

/// The error, if any, that decoding the frame `s` reports. The checks
/// run in a fixed order, so the first violated condition names the
/// error.
pub open spec fn decode_err(s: Seq<u8>) -> Option<MsError> {
    if s.len() < 48 {
        Some(MsError::MalformedHeader)
    } else if !digits6_ok(s, 0) {
        Some(MsError::MalformedHeader)
    } else if !quality_ok(s[6]) {
        Some(MsError::MalformedHeader)
    } else if !btime_valid(header_btime(s)) {
        Some(MsError::MalformedHeader)
    } else {
        match find_b1000(s, be16(s, 46)) {
            None => Some(MsError::MalformedHeader),
            Some(bo) => {
                let tag = s[bo + 4];
                let wo = s[bo + 5];
                let exp = s[bo + 6];
                match kind_of_tag(tag) {
                    None => Some(MsError::UnsupportedEncoding),
                    Some(kind) => {
                        if wo > 1 {
                            Some(MsError::MalformedHeader)
                        } else if exp < 7 || exp > 20 {
                            Some(MsError::MalformedHeader)
                        } else if s.len() < pow2_spec(exp as nat) {
                            Some(MsError::MalformedHeader)
                        } else {
                            let n = be16(s, 30);
                            let f = as_i16(be16(s, 32));
                            let m = as_i16(be16(s, 34));
                            if n > 0 && rate_num_of(f, m) == 0 {
                                Some(MsError::InvalidSampleRate)
                            } else if n > 0 && rate_den_of(f, m) > 86_400 {
                                Some(MsError::InvalidSampleRate)
                            } else {
                                let doff = be16(s, 44);
                                if doff < 56 {
                                    Some(MsError::MalformedHeader)
                                } else if kind is Compressed {
                                    Some(MsError::UnsupportedEncoding)
                                } else if doff + n * sample_size_of_kind(kind) > pow2_spec(
                                    exp as nat,
                                ) {
                                    Some(MsError::MalformedHeader)
                                } else {
                                    None
                                }
                            }
                        }
                    },
                }
            },
        }
    }
}

/// The relation between a decoded record and its frame: every field of
/// the record is the one read from the frame's bytes.
pub open spec fn decode_fields_ok(rec: ms_record, s: Seq<u8>) -> bool {
    &&& rec.sequence_number == seq_num_val(s, 0)
    &&& rec.data_quality == s[6]
    &&& rec.station@ == trim_field(s.subrange(8, 13))
    &&& rec.location@ == trim_field(s.subrange(13, 15))
    &&& rec.channel@ == trim_field(s.subrange(15, 18))
    &&& rec.network@ == trim_field(s.subrange(18, 20))
    &&& rec.start_time == btime_ts(header_btime(s))
    &&& rec.rate_factor as int == as_i16(be16(s, 32))
    &&& rec.rate_mult as int == as_i16(be16(s, 34))
    &&& rec.activity_flags == s[36]
    &&& rec.io_flags == s[37]
    &&& rec.quality_flags == s[38]
    &&& rec.time_correction as int == as_i32(be32(s, 40))
    &&& rec.data_offset as int == be16(s, 44)
    &&& match find_b1000(s, be16(s, 46)) {
        Some(bo) => {
            &&& kind_of_tag(s[bo + 4]) == Some(rec.encoding)
            &&& rec.word_order == s[bo + 5]
            &&& rec.reclen_exp == s[bo + 6]
        },
        None => false,
    }
    &&& rec.npts_spec() == be16(s, 30)
    &&& payload_ok(rec.data, s, be16(s, 44), be16(s, 30), rec.word_order)
}

/// Follows the chain of block offsets to the descriptor block.
fn find_b1000_exec(buf: &[u8], bo: usize) -> (r: Option<usize>)
    requires
        bo <= 0xffff,
    ensures
        r matches Some(b) ==> find_b1000(buf@, bo as int) == Some(b as int) && 48 <= b && b + 8
            <= buf@.len(),
        r is None ==> find_b1000(buf@, bo as int) is None,
    decreases buf@.len() - bo,
{
    let n: usize = buf.len();
    if bo < 48 || bo + 8 > n {
        return None;
    }
    if read_be16(buf, bo) == 1000 {
        return Some(bo);
    }
    let nxt: usize = read_be16(buf, bo + 2) as usize;
    if nxt > bo && nxt + 8 <= n {
        find_b1000_exec(buf, nxt)
    } else {
        None
    }
}

/// Reads `n` raw payload bytes at `off`.
fn read_bytes(buf: &[u8], off: usize, n: usize) -> (r: Vec<u8>)
    requires
        off + n <= buf@.len(),
    ensures
        r@ == buf@.subrange(off as int, off + n),
{
    let mut r: Vec<u8> = Vec::new();
    let n2: usize = buf.len();
    assert(off + n <= n2);
    let mut j: usize = 0;
    while j < n
        invariant
            j <= n,
            off + n <= buf@.len(),
            off + n <= usize::MAX,
            r@ == buf@.subrange(off as int, off + j),
        decreases n - j,
    {
        r.push(buf[off + j]);
        proof {
            assert(r@ =~= buf@.subrange(off as int, off + j + 1));
        }
        j = j + 1;
    }
    r
}

/// Reads an unsigned 32-bit sample in the record's byte order.
fn read_wire_u32(buf: &[u8], i: usize, wo: u8) -> (r: u32)
    requires
        i + 4 <= buf@.len(),
    ensures
        r == wire_u32_at(buf@, i as int, wo),
{
    if wo == 0 {
        read_le32(buf, i)
    } else {
        read_be32(buf, i)
    }
}

/// Reads an unsigned 64-bit sample in the record's byte order.
fn read_wire_u64(buf: &[u8], i: usize, wo: u8) -> (r: u64)
    requires
        i + 8 <= buf@.len(),
    ensures
        r == wire_u64_at(buf@, i as int, wo),
{
    if wo == 0 {
        read_le64(buf, i)
    } else {
        read_be64(buf, i)
    }
}

/// Decodes the signed 32-bit sample vector at `off`.
fn read_samples_i32(buf: &[u8], off: usize, n: usize, wo: u8) -> (r: Vec<i32>)
    requires
        off + 4 * n <= buf@.len(),
    ensures
        r@.len() == n,
        forall|j: int| 0 <= j < n ==> #[trigger] r@[j] as int == as_i32(
            wire_u32_at(buf@, off + 4 * j, wo),
        ),
{
    let mut r: Vec<i32> = Vec::new();
    let n2: usize = buf.len();
    assert(off + 4 * n <= n2);
    let mut j: usize = 0;
    while j < n
        invariant
            j <= n,
            off + 4 * n <= buf@.len(),
            off + 4 * n <= usize::MAX,
            r@.len() == j,
            forall|t: int| 0 <= t < j ==> #[trigger] r@[t] as int == as_i32(
                wire_u32_at(buf@, off + 4 * t, wo),
            ),
        decreases n - j,
    {
        let x: u32 = read_wire_u32(buf, off + 4 * j, wo);
        let v: i32 = if x >= 0x8000_0000 {
            let d: i64 = 0x1_0000_0000 - (x as i64);
            (-d) as i32
        } else {
            x as i32
        };
        r.push(v);
        j = j + 1;
    }
    r
}

/// Decodes the 32-bit bit-pattern sample vector at `off`.
fn read_samples_u32(buf: &[u8], off: usize, n: usize, wo: u8) -> (r: Vec<u32>)
    requires
        off + 4 * n <= buf@.len(),
    ensures
        r@.len() == n,
        forall|j: int| 0 <= j < n ==> #[trigger] r@[j] as int == wire_u32_at(buf@, off + 4 * j, wo),
{
    let mut r: Vec<u32> = Vec::new();
    let n2: usize = buf.len();
    assert(off + 4 * n <= n2);
    let mut j: usize = 0;
    while j < n
        invariant
            j <= n,
            off + 4 * n <= buf@.len(),
            off + 4 * n <= usize::MAX,
            r@.len() == j,
            forall|t: int| 0 <= t < j ==> #[trigger] r@[t] as int == wire_u32_at(
                buf@,
                off + 4 * t,
                wo,
            ),
        decreases n - j,
    {
        let x: u32 = read_wire_u32(buf, off + 4 * j, wo);
        r.push(x);
        j = j + 1;
    }
    r
}

/// Decodes the 64-bit bit-pattern sample vector at `off`.
fn read_samples_u64(buf: &[u8], off: usize, n: usize, wo: u8) -> (r: Vec<u64>)
    requires
        off + 8 * n <= buf@.len(),
    ensures
        r@.len() == n,
        forall|j: int| 0 <= j < n ==> #[trigger] r@[j] as int == wire_u64_at(buf@, off + 8 * j, wo),
{
    let mut r: Vec<u64> = Vec::new();
    let n2: usize = buf.len();
    assert(off + 8 * n <= n2);
    let mut j: usize = 0;
    while j < n
        invariant
            j <= n,
            off + 8 * n <= buf@.len(),
            off + 8 * n <= usize::MAX,
            r@.len() == j,
            forall|t: int| 0 <= t < j ==> #[trigger] r@[t] as int == wire_u64_at(
                buf@,
                off + 8 * t,
                wo,
            ),
        decreases n - j,
    {
        let x: u64 = read_wire_u64(buf, off + 8 * j, wo);
        r.push(x);
        j = j + 1;
    }
    r
}

impl ms_record {
    /// Decodes one record from the front of `buf`. Bytes past the
    /// frame's own declared length are ignored.
    ///
    /// Succeeds exactly when `decode_err` finds nothing to object to,
    /// and then every field of the record is the one read from the
    /// frame. Compressed payloads are refused here: they take the
    /// external decompressor, see `decode_with_samples`.
    pub fn decode(buf: &[u8]) -> (r: Result<ms_record, MsError>)
        ensures
            r matches Err(e) ==> decode_err(buf@) == Some(e),
            r matches Ok(rec) ==> decode_err(buf@) is None && rec.wf() && decode_fields_ok(
                rec,
                buf@,
            ),
            decode_err(buf@) is None ==> r is Ok,
    {
        let buflen: usize = buf.len();
        if buflen < 48 {
            return Err(MsError::MalformedHeader);
        }
        let seq: u32 = match read_seq_num(buf, 0) {
            Ok(v) => v,
            Err(e) => { return Err(e) },
        };
        let quality: u8 = buf[6];
        if !(quality == 68 || quality == 82 || quality == 81 || quality == 77) {
            return Err(MsError::MalformedHeader);
        }
        let bt = BTime {
            year: read_be16(buf, 20),
            day: read_be16(buf, 22),
            hour: buf[24],
            min: buf[25],
            sec: buf[26],
            unused: buf[27],
            fract: read_be16(buf, 28),
        };
        proof {
            assert(bt == header_btime(buf@));
        }
        let start_time: i64 = match time_decode(&bt) {
            Ok(t) => t,
            Err(e) => { return Err(MsError::MalformedHeader) },
        };
        let bo0: u16 = read_be16(buf, 46);
        let bo: usize = match find_b1000_exec(buf, bo0 as usize) {
            Some(b) => b,
            None => { return Err(MsError::MalformedHeader) },
        };
        let tag: u8 = buf[bo + 4];
        let wo: u8 = buf[bo + 5];
        let exp: u8 = buf[bo + 6];
        let kind: EncodingKind = if tag == 0 {
            EncodingKind::Ascii
        } else if tag == 3 {
            EncodingKind::Int32
        } else if tag == 4 {
            EncodingKind::Float32
        } else if tag == 5 {
            EncodingKind::Float64
        } else if tag == 10 || tag == 11 {
            EncodingKind::Compressed { tag }
        } else {
            return Err(MsError::UnsupportedEncoding);
        };
        if wo > 1 {
            return Err(MsError::MalformedHeader);
        }
        if exp < 7 || exp > 20 {
            return Err(MsError::MalformedHeader);
        }
        let reclen: u32 = reclen_of_exp(exp);
        if (buflen as u64) < (reclen as u64) {
            return Err(MsError::MalformedHeader);
        }
        let n: u16 = read_be16(buf, 30);
        let f: i16 = read_be16_signed(buf, 32);
        let m: i16 = read_be16_signed(buf, 34);
        let (num, den): (u64, u64) = rate_parts_of(f, m);
        if n > 0 && num == 0 {
            return Err(MsError::InvalidSampleRate);
        }
        if n > 0 && den > 86_400 {
            return Err(MsError::InvalidSampleRate);
        }
        let doff: u16 = read_be16(buf, 44);
        if doff < 56 {
            return Err(MsError::MalformedHeader);
        }
        let ssize: u32 = match kind {
            EncodingKind::Ascii => 1,
            EncodingKind::Int32 => 4,
            EncodingKind::Float32 => 4,
            EncodingKind::Float64 => 8,
            EncodingKind::Compressed { .. } => { return Err(MsError::UnsupportedEncoding) },
        };
        if (doff as u32) + (n as u32) * ssize > reclen {
            return Err(MsError::MalformedHeader);
        }
        let data: Data = match kind {
            EncodingKind::Ascii => Data::Ascii(read_bytes(buf, doff as usize, n as usize)),
            EncodingKind::Int32 => Data::Int(
                read_samples_i32(buf, doff as usize, n as usize, wo),
            ),
            EncodingKind::Float32 => Data::Float(
                read_samples_u32(buf, doff as usize, n as usize, wo),
            ),
            EncodingKind::Float64 => Data::Double(
                read_samples_u64(buf, doff as usize, n as usize, wo),
            ),
            EncodingKind::Compressed { .. } => { return Err(MsError::UnsupportedEncoding) },
        };
        let rec = ms_record {
            sequence_number: seq,
            data_quality: quality,
            network: read_field(buf, 18, 20),
            station: read_field(buf, 8, 13),
            location: read_field(buf, 13, 15),
            channel: read_field(buf, 15, 18),
            start_time,
            rate_factor: f,
            rate_mult: m,
            encoding: kind,
            word_order: wo,
            reclen_exp: exp,
            data_offset: doff,
            activity_flags: buf[36],
            io_flags: buf[37],
            quality_flags: buf[38],
            time_correction: read_be32_signed(buf, 40),
            data,
        };
        proof {
            lemma_valid_ts_encodable(header_btime(buf@));
            lemma_btime_ts_mod(header_btime(buf@));
            lemma_rate_parts_bounds(f as int, m as int);
        }
        Ok(rec)
    }

    /// Decodes one record from an in-memory buffer that the caller has
    /// trimmed to the start of the fixed header. Same contract as
    /// `decode`.
    pub fn parse(record: &[u8]) -> (r: Result<ms_record, MsError>)
        ensures
            r matches Err(e) ==> decode_err(record@) == Some(e),
            r matches Ok(rec) ==> decode_err(record@) is None && rec.wf() && decode_fields_ok(
                rec,
                record@,
            ),
            decode_err(record@) is None ==> r is Ok,
    {
        ms_record::decode(record)
    }
}

/// The rate numerator and denominator of a factor/multiplier pair.
pub fn rate_parts_of(f: i16, m: i16) -> (r: (u64, u64))
    ensures
        r.0 == rate_num_of(f as int, m as int),
        r.1 == rate_den_of(f as int, m as int),
{
    proof {
        lemma_rate_parts_bounds(f as int, m as int);
    }
    if f > 0 && m > 0 {
        ((f as u64) * (m as u64), 1)
    } else if f > 0 && m < 0 {
        (f as u64, (-(m as i64)) as u64)
    } else if f < 0 && m > 0 {
        (m as u64, (-(f as i64)) as u64)
    } else if f < 0 && m < 0 {
        (1, ((f as i64) * (m as i64)) as u64)
    } else {
        (0, 1)
    }
}

/// The rate parts of a wire pair stay within 30 bits.
proof fn lemma_rate_parts_bounds(f: int, m: int)
    requires
        -0x8000 <= f <= 0x7fff,
        -0x8000 <= m <= 0x7fff,
    ensures
        0 <= rate_num_of(f, m) <= 0x4000_0000,
        1 <= rate_den_of(f, m) <= 0x4000_0000,
{
    if f > 0 && m > 0 {
        assert(f * m <= 0x7fff * 0x7fff) by (nonlinear_arith)
            requires
                0 < f <= 0x7fff,
                0 < m <= 0x7fff,
        ;
        assert(f * m >= 1) by (nonlinear_arith)
            requires
                0 < f,
                0 < m,
        ;
    }
    if f < 0 && m < 0 {
        assert(f * m <= 0x8000 * 0x8000) by (nonlinear_arith)
            requires
                -0x8000 <= f < 0,
                -0x8000 <= m < 0,
        ;
        assert(f * m >= 1) by (nonlinear_arith)
            requires
                f < 0,
                m < 0,
        ;
    }
}


/// Tests an identity field: short and nothing but printable
/// non-padding bytes.
fn check_id_field(f: &Vec<u8>, width: usize) -> (r: bool)
    ensures
        r == id_field_wf(f@, width as int),
{
    if f.len() > width {
        return false;
    }
    let mut i: usize = 0;
    while i < f.len()
        invariant
            i <= f@.len(),
            forall|j: int| 0 <= j < i ==> field_keep(#[trigger] f@[j]),
        decreases f@.len() - i,
    {
        let b: u8 = f[i];
        if !(33 <= b && b <= 126) {
            return false;
        }
        i = i + 1;
    }
    true
}

/// The characters of ASCII bytes, one per byte.
pub open spec fn chars_of_bytes(s: Seq<u8>) -> Seq<char> {
    s.map_values(|b: u8| b as char)
}

/// Relies on `String::from_utf8`: UTF-8 decoding of bytes below 128
/// yields exactly those bytes as characters.
#[verifier::external_body]
pub(crate) fn ascii_string(b: Vec<u8>) -> (r: String)
    requires
        forall|j: int| 0 <= j < b@.len() ==> b@[j] < 128,
    ensures
        r@ == chars_of_bytes(b@),
{
    match String::from_utf8(b) {
        Ok(s) => s,
        Err(_) => String::new(),
    }
}

/// Appends all bytes of `src`.
pub(crate) fn append_bytes(out: &mut Vec<u8>, src: &Vec<u8>)
    ensures
        final(out)@ == old(out)@ + src@,
{
    let mut i: usize = 0;
    while i < src.len()
        invariant
            i <= src@.len(),
            out@ == old(out)@ + src@.subrange(0, i as int),
        decreases src@.len() - i,
    {
        out.push(src[i]);
        proof {
            assert(out@ =~= old(out)@ + src@.subrange(0, i + 1));
        }
        i = i + 1;
    }
    proof {
        assert(old(out)@ + src@.subrange(0, src@.len() as int) =~= old(out)@ + src@);
    }
}

/// The sample-period offset of sample `i` at rate `num / den` samples
/// per second, in microseconds, truncated.
pub open spec fn sample_offset_spec(i: int, num: int, den: int) -> int {
    i * den * 1_000_000 / num
}

/// Whether `m` is the least element of `s`.
pub open spec fn is_min_i32(m: int, s: Seq<i32>) -> bool {
    (exists|i: int| 0 <= i < s.len() && #[trigger] s[i] as int == m) && forall|i: int|
        0 <= i < s.len() ==> m <= #[trigger] s[i] as int
}

/// Whether `m` is the greatest element of `s`.
pub open spec fn is_max_i32(m: int, s: Seq<i32>) -> bool {
    (exists|i: int| 0 <= i < s.len() && #[trigger] s[i] as int == m) && forall|i: int|
        0 <= i < s.len() ==> m >= #[trigger] s[i] as int
}

impl ms_record {

    /// Tests the record's well-formedness, for callers outside the
    /// verified world that must establish it before encoding or
    /// merging. Records built by the decoder are always well formed.
    pub fn check_wf(&self) -> (r: bool)
        ensures
            r == self.wf(),
    {
        if !(self.sequence_number <= 999_999) {
            return false;
        }
        let q: u8 = self.data_quality;
        if !(q == 68 || q == 82 || q == 81 || q == 77) {
            return false;
        }
        if !(check_id_field(&self.network, 2) && check_id_field(&self.station, 5) && check_id_field(
            &self.location,
            2,
        ) && check_id_field(&self.channel, 3)) {
            return false;
        }
        if !crate::time::is_encodable(self.start_time) {
            return false;
        }
        if self.start_time % 100 != 0 {
            return false;
        }
        let n: usize = self.npts();
        if n > 65_535 {
            return false;
        }
        let (num, den): (u64, u64) = rate_parts_of(self.rate_factor, self.rate_mult);
        if n > 0 && !(1 <= num && num <= 0x4000_0000 && 1 <= den && den <= 86_400) {
            return false;
        }
        let kinds_ok: bool = match (&self.data, &self.encoding) {
            (Data::Ascii(_), EncodingKind::Ascii) => true,
            (Data::Int(_), EncodingKind::Int32) => true,
            (Data::Float(_), EncodingKind::Float32) => true,
            (Data::Double(_), EncodingKind::Float64) => true,
            (_, EncodingKind::Compressed { .. }) => true,
            _ => false,
        };
        if !kinds_ok {
            return false;
        }
        if !(self.word_order <= 1 && 7 <= self.reclen_exp && self.reclen_exp <= 20
            && 56 <= self.data_offset) {
            return false;
        }
        let compressed: bool = match &self.encoding {
            EncodingKind::Compressed { .. } => true,
            _ => false,
        };
        if !compressed {
            let ssize: u64 = match &self.data {
                Data::Int(_) => 4,
                Data::Float(_) => 4,
                Data::Double(_) => 8,
                Data::Ascii(_) => 1,
            };
            let reclen: u32 = reclen_of_exp(self.reclen_exp);
            if (self.data_offset as u64) + (n as u64) * ssize > reclen as u64 {
                return false;
            }
        }
        true
    }

    /// The number of samples held.
    pub fn npts(&self) -> (n: usize)
        ensures
            n == self.npts_spec(),
    {
        self.data.len()
    }

    /// The sample type letter: `i` for 32-bit integers, `f` and `d` for
    /// 32- and 64-bit floating bit patterns, `a` for text.
    pub fn data_type(&self) -> (c: char)
        ensures
            c == self.data.spec_type_char(),
    {
        match &self.data {
            Data::Int(_) => 'i',
            Data::Float(_) => 'f',
            Data::Double(_) => 'd',
            Data::Ascii(_) => 'a',
        }
    }

    /// The sample type letter, see `data_type`.
    pub fn dtype(&self) -> (c: char)
        ensures
            c == self.data.spec_type_char(),
    {
        self.data_type()
    }

    /// The identity bytes: network, station, location and channel,
    /// joined with underscores.
    pub open spec fn id_bytes(&self) -> Seq<u8> {
        self.network@ + seq![95u8] + self.station@ + seq![95u8] + self.location@ + seq![95u8]
            + self.channel@
    }

    /// The record identity as text: `network_station_location_channel`.
    pub fn id(&self) -> (r: String)
        requires
            self.wf(),
        ensures
            r@ == chars_of_bytes(self.id_bytes()),
    {
        let mut b: Vec<u8> = Vec::new();
        append_bytes(&mut b, &self.network);
        b.push(95);
        append_bytes(&mut b, &self.station);
        b.push(95);
        append_bytes(&mut b, &self.location);
        b.push(95);
        append_bytes(&mut b, &self.channel);
        proof {
            assert(b@ =~= self.id_bytes());
        }
        ascii_string(b)
    }

    /// The record identity as text, see `id`.
    pub fn identity_string(&self) -> (r: String)
        requires
            self.wf(),
        ensures
            r@ == chars_of_bytes(self.id_bytes()),
    {
        self.id()
    }

    /// The text payload, for a text record whose bytes are plain ASCII;
    /// nothing for typed samples or bytes beyond ASCII.
    pub fn as_string(&self) -> (r: Option<String>)
        ensures
            match r {
                Some(s) => self.data matches Data::Ascii(v) && (forall|j: int|
                    0 <= j < v@.len() ==> v@[j] < 128) && s@ == chars_of_bytes(v@),
                None => match self.data {
                    Data::Ascii(v) => exists|j: int| 0 <= j < v@.len() && v@[j] >= 128,
                    _ => true,
                },
            },
    {
        match &self.data {
            Data::Ascii(v) => {
                let mut i: usize = 0;
                while i < v.len()
                    invariant
                        i <= v@.len(),
                        self.data matches Data::Ascii(w) && w@ == v@,
                        forall|j: int| 0 <= j < i ==> v@[j] < 128,
                    decreases v@.len() - i,
                {
                    if v[i] >= 128 {
                        proof {
                            assert(0 <= i < v@.len() && v@[i as int] >= 128);
                        }
                        return None;
                    }
                    i = i + 1;
                }
                let mut b: Vec<u8> = Vec::new();
                append_bytes(&mut b, v);
                proof {
                    assert(b@ =~= v@);
                }
                Some(ascii_string(b))
            },
            _ => None,
        }
    }

    /// The time of the first sample.
    pub fn start(&self) -> (t: i64)
        ensures
            t == self.start_time,
    {
        self.start_time
    }

    /// The time of the last sample; the start time when the record is
    /// empty.
    pub open spec fn end_spec(&self) -> int {
        if self.npts_spec() == 0 {
            self.start_time as int
        } else {
            self.start_time + sample_offset_spec(
                self.npts_spec() - 1,
                self.rate_num(),
                self.rate_den(),
            )
        }
    }

    /// The time one sample period past the last sample; the start time
    /// when the record is empty.
    pub open spec fn end1_spec(&self) -> int {
        if self.npts_spec() == 0 {
            self.start_time as int
        } else {
            self.start_time + sample_offset_spec(
                self.npts_spec(),
                self.rate_num(),
                self.rate_den(),
            )
        }
    }

    /// The time of sample `i`: the start time plus `i` sample periods,
    /// truncated to whole microseconds.
    pub fn sample_time(&self, i: usize) -> (t: i64)
        requires
            self.wf(),
            i < self.npts_spec(),
        ensures
            t == self.start_time + sample_offset_spec(i as int, self.rate_num(), self.rate_den()),
    {
        let off: i64 = sample_offset(i as u64, rate_parts_of(self.rate_factor, self.rate_mult));
        self.start_time + off
    }

    /// The time of the last sample.
    pub fn end(&self) -> (t: i64)
        requires
            self.wf(),
        ensures
            t == self.end_spec(),
    {
        let n: usize = self.npts();
        if n == 0 {
            return self.start_time;
        }
        let off: i64 = sample_offset(
            (n - 1) as u64,
            rate_parts_of(self.rate_factor, self.rate_mult),
        );
        self.start_time + off
    }

    /// The time one sample period past the last sample, for adjacency
    /// tests against a following record.
    pub fn end1(&self) -> (t: i64)
        requires
            self.wf(),
        ensures
            t == self.end1_spec(),
    {
        let n: usize = self.npts();
        if n == 0 {
            return self.start_time;
        }
        let off: i64 = sample_offset(n as u64, rate_parts_of(self.rate_factor, self.rate_mult));
        self.start_time + off
    }

    /// The least sample of an integer record. Text and floating bit
    /// patterns have no verified order here and are refused, as is an
    /// empty record, which has no least sample at all.
    pub fn min(&self) -> (r: Result<i32, MsError>)
        ensures
            match &self.data {
                Data::Int(v) => if v@.len() == 0 {
                    r == Err::<i32, MsError>(MsError::EmptyData)
                } else {
                    r matches Ok(x) && is_min_i32(x as int, v@)
                },
                _ => r == Err::<i32, MsError>(MsError::TypeMismatch),
            },
    {
        data_min(&self.data)
    }

    /// The greatest sample of an integer record; refused in the same
    /// cases as `min`.
    pub fn max(&self) -> (r: Result<i32, MsError>)
        ensures
            match &self.data {
                Data::Int(v) => if v@.len() == 0 {
                    r == Err::<i32, MsError>(MsError::EmptyData)
                } else {
                    r matches Ok(x) && is_max_i32(x as int, v@)
                },
                _ => r == Err::<i32, MsError>(MsError::TypeMismatch),
            },
    {
        data_max(&self.data)
    }

    /// The integer samples; a type mismatch unless the record holds
    /// 32-bit integers.
    pub fn data_i32(&self) -> (r: Result<&Vec<i32>, MsError>)
        ensures
            r matches Ok(v) ==> self.data matches Data::Int(w) && v@ == w@,
            r is Err ==> !(self.data is Int) && r == Err::<&Vec<i32>, MsError>(
                MsError::TypeMismatch,
            ),
            self.data is Int ==> r is Ok,
    {
        match &self.data {
            Data::Int(v) => Ok(v),
            _ => Err(MsError::TypeMismatch),
        }
    }

    /// The 32-bit floating bit patterns; a type mismatch otherwise.
    pub fn data_f32(&self) -> (r: Result<&Vec<u32>, MsError>)
        ensures
            r matches Ok(v) ==> self.data matches Data::Float(w) && v@ == w@,
            r is Err ==> !(self.data is Float) && r == Err::<&Vec<u32>, MsError>(
                MsError::TypeMismatch,
            ),
            self.data is Float ==> r is Ok,
    {
        match &self.data {
            Data::Float(v) => Ok(v),
            _ => Err(MsError::TypeMismatch),
        }
    }

    /// The 64-bit floating bit patterns; a type mismatch otherwise.
    pub fn data_f64(&self) -> (r: Result<&Vec<u64>, MsError>)
        ensures
            r matches Ok(v) ==> self.data matches Data::Double(w) && v@ == w@,
            r is Err ==> !(self.data is Double) && r == Err::<&Vec<u64>, MsError>(
                MsError::TypeMismatch,
            ),
            self.data is Double ==> r is Ok,
    {
        match &self.data {
            Data::Double(v) => Ok(v),
            _ => Err(MsError::TypeMismatch),
        }
    }
}

/// The microsecond offset of sample `i` at rate `parts`, truncated.
fn sample_offset(i: u64, parts: (u64, u64)) -> (r: i64)
    requires
        i <= 65_535,
        1 <= parts.0 <= 0x4000_0000,
        1 <= parts.1 <= 86_400,
    ensures
        r == sample_offset_spec(i as int, parts.0 as int, parts.1 as int),
        0 <= r <= 0x20_0000_0000_0000,
{
    let (num, den): (u64, u64) = parts;
    proof {
        assert(i * den <= 65_535 * 86_400) by (nonlinear_arith)
            requires
                0 <= i <= 65_535,
                0 <= den <= 86_400,
        ;
    }
    let prod: u64 = i * den * 1_000_000;
    proof {
        vstd::arithmetic::div_mod::lemma_div_nonincreasing(prod as int, num as int);
        vstd::arithmetic::div_mod::lemma_div_pos_is_pos(prod as int, num as int);
    }
    (prod / num) as i64
}

/// The unsigned bit pattern of a signed 32-bit sample.
fn i32_bits(x: i32) -> (r: u32)
    ensures
        r as int == bits_of_i32(x as int),
{
    if x >= 0 {
        x as u32
    } else {
        let d: i64 = (x as i64) + 0x1_0000_0000;
        d as u32
    }
}

/// Appends zero bytes until the buffer reaches `upto`.
fn push_zeros(out: &mut Vec<u8>, upto: usize)
    requires
        old(out)@.len() <= upto,
    ensures
        final(out)@.len() == upto,
        seq_prefix(old(out)@, final(out)@),
{
    while out.len() < upto
        invariant
            out@.len() <= upto,
            seq_prefix(old(out)@, out@),
        decreases upto - out@.len(),
    {
        let ghost prev = out@;
        out.push(0);
        proof {
            assert forall|i: int| 0 <= i < old(out)@.len() implies out@[i] == old(out)@[i] by {
                assert(out@[i] == prev[i]);
            }
        }
    }
}

/// Appends the byte-order form of each 32-bit sample bit pattern.
fn push_samples_u32(out: &mut Vec<u8>, v: &Vec<u32>, wo: u8)
    requires
        wo <= 1,
        old(out)@.len() + 4 * v@.len() <= usize::MAX,
    ensures
        final(out)@.len() == old(out)@.len() + 4 * v@.len(),
        seq_prefix(old(out)@, final(out)@),
        forall|j: int| 0 <= j < v@.len() ==> #[trigger] v@[j] as int == wire_u32_at(
            final(out)@,
            old(out)@.len() + 4 * j,
            wo,
        ),
{
    let ghost base = old(out)@.len() as int;
    let mut k: usize = 0;
    while k < v.len()
        invariant
            k <= v@.len(),
            wo <= 1,
            out@.len() == old(out)@.len() + 4 * k,
            old(out)@.len() + 4 * v@.len() <= usize::MAX,
            base == old(out)@.len() as int,
            seq_prefix(old(out)@, out@),
            forall|j: int| 0 <= j < k ==> #[trigger] v@[j] as int == wire_u32_at(
                out@,
                base + 4 * j,
                wo,
            ),
        decreases v@.len() - k,
    {
        let ghost prev = out@;
        if wo == 0 {
            push_le32(out, v[k]);
        } else {
            push_be32(out, v[k]);
        }
        proof {
            assert forall|i: int| 0 <= i < prev.len() implies out@[i] == prev[i] by {
            }
            assert forall|j: int| 0 <= j < k + 1 implies #[trigger] v@[j] as int == wire_u32_at(
                out@,
                base + 4 * j,
                wo,
            ) by {
                if j < k {
                    assert(v@[j] as int == wire_u32_at(prev, base + 4 * j, wo));
                    assert(out@[base + 4 * j] == prev[base + 4 * j]);
                    assert(out@[base + 4 * j + 1] == prev[base + 4 * j + 1]);
                    assert(out@[base + 4 * j + 2] == prev[base + 4 * j + 2]);
                    assert(out@[base + 4 * j + 3] == prev[base + 4 * j + 3]);
                }
            }
        }
        k = k + 1;
    }
}

/// Appends the byte-order form of each 64-bit sample bit pattern.
fn push_samples_u64(out: &mut Vec<u8>, v: &Vec<u64>, wo: u8)
    requires
        wo <= 1,
        old(out)@.len() + 8 * v@.len() <= usize::MAX,
    ensures
        final(out)@.len() == old(out)@.len() + 8 * v@.len(),
        seq_prefix(old(out)@, final(out)@),
        forall|j: int| 0 <= j < v@.len() ==> #[trigger] v@[j] as int == wire_u64_at(
            final(out)@,
            old(out)@.len() + 8 * j,
            wo,
        ),
{
    let ghost base = old(out)@.len() as int;
    let mut k: usize = 0;
    while k < v.len()
        invariant
            k <= v@.len(),
            wo <= 1,
            out@.len() == old(out)@.len() + 8 * k,
            old(out)@.len() + 8 * v@.len() <= usize::MAX,
            base == old(out)@.len() as int,
            seq_prefix(old(out)@, out@),
            forall|j: int| 0 <= j < k ==> #[trigger] v@[j] as int == wire_u64_at(
                out@,
                base + 8 * j,
                wo,
            ),
        decreases v@.len() - k,
    {
        let ghost prev = out@;
        if wo == 0 {
            push_le64(out, v[k]);
        } else {
            push_be64(out, v[k]);
        }
        proof {
            assert forall|i: int| 0 <= i < prev.len() implies out@[i] == prev[i] by {
            }
            assert forall|j: int| 0 <= j < k + 1 implies #[trigger] v@[j] as int == wire_u64_at(
                out@,
                base + 8 * j,
                wo,
            ) by {
                if j < k {
                    assert(v@[j] as int == wire_u64_at(prev, base + 8 * j, wo));
                    assert forall|t: int| base + 8 * j <= t < base + 8 * j + 8 implies out@[t]
                        == prev[t] by {
                    }
                }
            }
        }
        k = k + 1;
    }
}

/// Appends the byte-order form of each signed 32-bit sample.
fn push_samples_i32(out: &mut Vec<u8>, v: &Vec<i32>, wo: u8)
    requires
        wo <= 1,
        old(out)@.len() + 4 * v@.len() <= usize::MAX,
    ensures
        final(out)@.len() == old(out)@.len() + 4 * v@.len(),
        seq_prefix(old(out)@, final(out)@),
        forall|j: int| 0 <= j < v@.len() ==> #[trigger] v@[j] as int == as_i32(
            wire_u32_at(final(out)@, old(out)@.len() + 4 * j, wo),
        ),
{
    let ghost base = old(out)@.len() as int;
    let mut k: usize = 0;
    while k < v.len()
        invariant
            k <= v@.len(),
            wo <= 1,
            out@.len() == old(out)@.len() + 4 * k,
            old(out)@.len() + 4 * v@.len() <= usize::MAX,
            base == old(out)@.len() as int,
            seq_prefix(old(out)@, out@),
            forall|j: int| 0 <= j < k ==> #[trigger] v@[j] as int == as_i32(
                wire_u32_at(out@, base + 4 * j, wo),
            ),
        decreases v@.len() - k,
    {
        let bits: u32 = i32_bits(v[k]);
        let ghost prev = out@;
        if wo == 0 {
            push_le32(out, bits);
        } else {
            push_be32(out, bits);
        }
        proof {
            assert forall|i: int| 0 <= i < prev.len() implies out@[i] == prev[i] by {
            }
            assert forall|j: int| 0 <= j < k + 1 implies #[trigger] v@[j] as int == as_i32(
                wire_u32_at(out@, base + 4 * j, wo),
            ) by {
                if j < k {
                    assert(v@[j] as int == as_i32(wire_u32_at(prev, base + 4 * j, wo)));
                    assert(out@[base + 4 * j] == prev[base + 4 * j]);
                    assert(out@[base + 4 * j + 1] == prev[base + 4 * j + 1]);
                    assert(out@[base + 4 * j + 2] == prev[base + 4 * j + 2]);
                    assert(out@[base + 4 * j + 3] == prev[base + 4 * j + 3]);
                }
            }
        }
        k = k + 1;
    }
}

impl ms_record {
    /// Re-encodes the record into its wire frame: the fixed header, one
    /// descriptor block, zero padding and the sample payload, together
    /// exactly the record's declared frame length.
    ///
    /// Only the natively decodable encodings can be written back; a
    /// compressed record would need the external compressor and is
    /// refused. On success the frame decodes cleanly and every field
    /// read back from it is the field of this record, so decoding
    /// inverts encoding, see `lemma_record_round_trip`.
    #[verifier::rlimit(60)]
    pub fn encode(&self) -> (r: Result<Vec<u8>, MsError>)
        requires
            self.wf(),
        ensures
            r is Err <==> self.encoding is Compressed,
            r matches Err(e) ==> e == MsError::UnsupportedEncoding,
            r matches Ok(b) ==> b@.len() == self.reclen_spec() && decode_err(b@) is None
                && decode_fields_ok(*self, b@),
    {
        let tag: u8 = match self.encoding {
            EncodingKind::Ascii => 0,
            EncodingKind::Int32 => 3,
            EncodingKind::Float32 => 4,
            EncodingKind::Float64 => 5,
            EncodingKind::Compressed { .. } => { return Err(MsError::UnsupportedEncoding) },
        };
        let bt: BTime = match time_encode(self.start_time) {
            Ok(b) => b,
            Err(_) => {
                proof {
                    assert(false);
                }
                return Err(MsError::UnsupportedEncoding);
            },
        };
        proof {
            lemma_btime_ts_mod(bt);
            vstd::arithmetic::div_mod::lemma_fundamental_div_mod(self.start_time as int, 100);
            assert(btime_ts(bt) == self.start_time);
        }
        let reclen: u32 = reclen_of_exp(self.reclen_exp);
        let n: usize = self.npts();
        let mut out: Vec<u8> = Vec::new();
        push_seq_num(&mut out, self.sequence_number);
        let ghost g_seq = out@;
        out.push(self.data_quality);
        out.push(32);
        let ghost g_q = out@;
        push_field(&mut out, &self.station, 5);
        let ghost g_sta = out@;
        push_field(&mut out, &self.location, 2);
        let ghost g_loc = out@;
        push_field(&mut out, &self.channel, 3);
        let ghost g_cha = out@;
        push_field(&mut out, &self.network, 2);
        let ghost g_net = out@;
        push_be16(&mut out, bt.year);
        push_be16(&mut out, bt.day);
        out.push(bt.hour);
        out.push(bt.min);
        out.push(bt.sec);
        out.push(0);
        push_be16(&mut out, bt.fract);
        let ghost g_time = out@;
        push_be16(&mut out, n as u16);
        push_be16_signed(&mut out, self.rate_factor);
        push_be16_signed(&mut out, self.rate_mult);
        out.push(self.activity_flags);
        out.push(self.io_flags);
        out.push(self.quality_flags);
        out.push(1);
        push_be32_signed(&mut out, self.time_correction);
        push_be16(&mut out, self.data_offset);
        push_be16(&mut out, 48);
        let ghost g_hdr = out@;
        push_be16(&mut out, 1000);
        push_be16(&mut out, 0);
        out.push(tag);
        out.push(self.word_order);
        out.push(self.reclen_exp);
        out.push(0);
        let ghost g_blk = out@;
        proof {
            assert(g_blk.len() == 56);
        }
        push_zeros(&mut out, self.data_offset as usize);
        let ghost g_pad = out@;
        match &self.data {
            Data::Ascii(v) => {
                append_bytes(&mut out, v);
                proof {
                    assert(seq_prefix(g_pad, out@));
                    assert(out@.subrange(
                        self.data_offset as int,
                        self.data_offset + v@.len(),
                    ) =~= v@);
                }
            },
            Data::Int(v) => {
                push_samples_i32(&mut out, v, self.word_order);
            },
            Data::Float(v) => {
                push_samples_u32(&mut out, v, self.word_order);
            },
            Data::Double(v) => {
                push_samples_u64(&mut out, v, self.word_order);
            },
        }
        let ghost g_data = out@;
        push_zeros(&mut out, reclen as usize);
        proof {
            let s = out@;
            let doff = self.data_offset as int;
            assert(s.len() == self.reclen_spec());
            // Every earlier stage is a prefix of the final frame.
            assert(seq_prefix(g_data, s));
            assert forall|i: int| 0 <= i < g_pad.len() implies s[i] == g_pad[i] by {
                assert(s[i] == g_data[i]);
            }
            assert forall|i: int| 0 <= i < 56 implies s[i] == g_blk[i] by {
                assert(s[i] == g_pad[i]);
            }
            assert forall|i: int| 0 <= i < g_hdr.len() implies s[i] == g_hdr[i] by {
                assert(s[i] == g_blk[i]);
            }
            assert forall|i: int| 0 <= i < g_time.len() implies s[i] == g_time[i] by {
                assert(s[i] == g_hdr[i]);
            }
            assert forall|i: int| 0 <= i < g_net.len() implies s[i] == g_net[i] by {
                assert(s[i] == g_time[i]);
            }
            assert forall|i: int| 0 <= i < g_cha.len() implies s[i] == g_cha[i] by {
                assert(s[i] == g_net[i]);
            }
            assert forall|i: int| 0 <= i < g_loc.len() implies s[i] == g_loc[i] by {
                assert(s[i] == g_cha[i]);
            }
            assert forall|i: int| 0 <= i < g_sta.len() implies s[i] == g_sta[i] by {
                assert(s[i] == g_loc[i]);
            }
            assert forall|i: int| 0 <= i < g_q.len() implies s[i] == g_q[i] by {
                assert(s[i] == g_sta[i]);
            }
            assert forall|i: int| 0 <= i < 6 implies s[i] == g_seq[i] by {
                assert(s[i] == g_q[i]);
            }
            // The header fields read back as written.
            assert(digits6_ok(s, 0) && seq_num_val(s, 0) == self.sequence_number);
            assert(s[6] == self.data_quality);
            assert(s.subrange(8, 13) =~= g_sta.subrange(8, 13));
            assert(trim_field(s.subrange(8, 13)) == self.station@);
            assert(s.subrange(13, 15) =~= g_loc.subrange(13, 15));
            assert(trim_field(s.subrange(13, 15)) == self.location@);
            assert(s.subrange(15, 18) =~= g_cha.subrange(15, 18));
            assert(trim_field(s.subrange(15, 18)) == self.channel@);
            assert(s.subrange(18, 20) =~= g_net.subrange(18, 20));
            assert(trim_field(s.subrange(18, 20)) == self.network@);
            assert(header_btime(s) == bt);
            assert(be16(s, 30) == n);
            assert(as_i16(be16(s, 32)) == self.rate_factor as int);
            assert(as_i16(be16(s, 34)) == self.rate_mult as int);
            assert(s[36] == self.activity_flags);
            assert(s[37] == self.io_flags);
            assert(s[38] == self.quality_flags);
            assert(as_i32(be32(s, 40)) == self.time_correction as int);
            assert(be16(s, 44) == self.data_offset);
            assert(be16(s, 46) == 48);
            assert(be16(s, 48) == 1000);
            assert(s[52] == tag && s[53] == self.word_order && s[54] == self.reclen_exp);
            assert(find_b1000(s, 48) == Some(48int));
            assert(kind_of_tag(tag) == Some(self.encoding));
            // The payload reads back as written.
            match &self.data {
                Data::Ascii(v) => {
                    assert(s.subrange(doff, doff + v@.len()) =~= g_data.subrange(
                        doff,
                        doff + v@.len(),
                    ));
                },
                Data::Int(v) => {},
                Data::Float(v) => {},
                Data::Double(v) => {},
            }
            assert(payload_ok(self.data, s, doff, n as int, self.word_order));
            assert(decode_fields_ok(*self, s));
            assert(decode_err(s) is None);
        }
        Ok(out)
    }
}

/// Whether two sample stores are the same form holding the same values.
pub open spec fn data_views_eq(d1: Data, d2: Data) -> bool {
    match (d1, d2) {
        (Data::Int(v1), Data::Int(v2)) => v1@ == v2@,
        (Data::Float(v1), Data::Float(v2)) => v1@ == v2@,
        (Data::Double(v1), Data::Double(v2)) => v1@ == v2@,
        (Data::Ascii(v1), Data::Ascii(v2)) => v1@ == v2@,
        _ => false,
    }
}

/// Law: decoding inverts encoding. The frame determines the record: two
/// well-formed records of native encoding whose fields both come from
/// the same frame agree in every field, identity bytes, timing, rate
/// pair, descriptor values, flags and samples. With the contracts of
/// `encode` and `decode`, decoding an encoded record reproduces it.
pub proof fn lemma_record_round_trip(r1: ms_record, r2: ms_record, s: Seq<u8>)
    requires
        r1.wf(),
        r2.wf(),
        !(r1.encoding is Compressed),
        decode_fields_ok(r1, s),
        decode_fields_ok(r2, s),
    ensures
        r1.sequence_number == r2.sequence_number,
        r1.data_quality == r2.data_quality,
        r1.network@ == r2.network@,
        r1.station@ == r2.station@,
        r1.location@ == r2.location@,
        r1.channel@ == r2.channel@,
        r1.start_time == r2.start_time,
        r1.rate_factor == r2.rate_factor,
        r1.rate_mult == r2.rate_mult,
        r1.encoding == r2.encoding,
        r1.word_order == r2.word_order,
        r1.reclen_exp == r2.reclen_exp,
        r1.data_offset == r2.data_offset,
        r1.activity_flags == r2.activity_flags,
        r1.io_flags == r2.io_flags,
        r1.quality_flags == r2.quality_flags,
        r1.time_correction == r2.time_correction,
        data_views_eq(r1.data, r2.data),
{
    let n = be16(s, 30);
    let doff = be16(s, 44);
    match (&r1.data, &r2.data) {
        (Data::Int(v1), Data::Int(v2)) => {
            assert(v1@ =~= v2@);
        },
        (Data::Float(v1), Data::Float(v2)) => {
            assert(v1@ =~= v2@);
        },
        (Data::Double(v1), Data::Double(v2)) => {
            assert(v1@ =~= v2@);
        },
        (Data::Ascii(v1), Data::Ascii(v2)) => {
            assert(v1@ =~= v2@);
        },
        _ => {
            assert(false);
        },
    }
}

/// The error, if any, that building a compressed record from a
/// decompressed sample buffer of `m` samples reports. The frame checks
/// match `decode_err`; a natively decodable frame does not take this
/// path, and a decompressed count differing from the frame's declared
/// count is a decompression failure.
pub open spec fn decode_with_err(s: Seq<u8>, m: int) -> Option<MsError> {
    if s.len() < 48 {
        Some(MsError::MalformedHeader)
    } else if !digits6_ok(s, 0) {
        Some(MsError::MalformedHeader)
    } else if !quality_ok(s[6]) {
        Some(MsError::MalformedHeader)
    } else if !btime_valid(header_btime(s)) {
        Some(MsError::MalformedHeader)
    } else {
        match find_b1000(s, be16(s, 46)) {
            None => Some(MsError::MalformedHeader),
            Some(bo) => {
                let tag = s[bo + 4];
                let wo = s[bo + 5];
                let exp = s[bo + 6];
                match kind_of_tag(tag) {
                    None => Some(MsError::UnsupportedEncoding),
                    Some(kind) => {
                        if wo > 1 {
                            Some(MsError::MalformedHeader)
                        } else if exp < 7 || exp > 20 {
                            Some(MsError::MalformedHeader)
                        } else if s.len() < pow2_spec(exp as nat) {
                            Some(MsError::MalformedHeader)
                        } else {
                            let n = be16(s, 30);
                            let f = as_i16(be16(s, 32));
                            let m2 = as_i16(be16(s, 34));
                            if n > 0 && rate_num_of(f, m2) == 0 {
                                Some(MsError::InvalidSampleRate)
                            } else if n > 0 && rate_den_of(f, m2) > 86_400 {
                                Some(MsError::InvalidSampleRate)
                            } else {
                                let doff = be16(s, 44);
                                if doff < 56 {
                                    Some(MsError::MalformedHeader)
                                } else if !(kind is Compressed) {
                                    Some(MsError::UnsupportedEncoding)
                                } else if m != n {
                                    Some(MsError::DecompressionFailure)
                                } else {
                                    None
                                }
                            }
                        }
                    },
                }
            },
        }
    }
}

/// The frame fields of a record built by `decode_with_samples`: all of
/// `decode_fields_ok` but the payload, whose samples came from the
/// external decompressor instead of the frame.
pub open spec fn header_fields_ok(rec: ms_record, s: Seq<u8>) -> bool {
    &&& rec.sequence_number == seq_num_val(s, 0)
    &&& rec.data_quality == s[6]
    &&& rec.station@ == trim_field(s.subrange(8, 13))
    &&& rec.location@ == trim_field(s.subrange(13, 15))
    &&& rec.channel@ == trim_field(s.subrange(15, 18))
    &&& rec.network@ == trim_field(s.subrange(18, 20))
    &&& rec.start_time == btime_ts(header_btime(s))
    &&& rec.rate_factor as int == as_i16(be16(s, 32))
    &&& rec.rate_mult as int == as_i16(be16(s, 34))
    &&& rec.data_offset as int == be16(s, 44)
    &&& match find_b1000(s, be16(s, 46)) {
        Some(bo) => {
            &&& kind_of_tag(s[bo + 4]) == Some(rec.encoding)
            &&& rec.word_order == s[bo + 5]
            &&& rec.reclen_exp == s[bo + 6]
        },
        None => false,
    }
    &&& rec.npts_spec() == be16(s, 30)
}

impl ms_record {
    /// Builds the record for a compressed frame from the typed sample
    /// buffer the external decompressor returned for it.
    ///
    /// The frame is validated as in `decode`; the decompressed count
    /// must equal the frame's declared sample count, and a mismatch is
    /// reported as a decompression failure, never corrected silently.
    pub fn decode_with_samples(buf: &[u8], samples: Data) -> (r: Result<ms_record, MsError>)
        ensures
            r matches Err(e) ==> decode_with_err(buf@, samples.spec_len()) == Some(e),
            r matches Ok(rec) ==> decode_with_err(buf@, samples.spec_len()) is None && rec.wf()
                && header_fields_ok(rec, buf@) && data_views_eq(rec.data, samples),
            decode_with_err(buf@, samples.spec_len()) is None ==> r is Ok,
    {
        let buflen: usize = buf.len();
        if buflen < 48 {
            return Err(MsError::MalformedHeader);
        }
        let seq: u32 = match read_seq_num(buf, 0) {
            Ok(v) => v,
            Err(e) => { return Err(e) },
        };
        let quality: u8 = buf[6];
        if !(quality == 68 || quality == 82 || quality == 81 || quality == 77) {
            return Err(MsError::MalformedHeader);
        }
        let bt = BTime {
            year: read_be16(buf, 20),
            day: read_be16(buf, 22),
            hour: buf[24],
            min: buf[25],
            sec: buf[26],
            unused: buf[27],
            fract: read_be16(buf, 28),
        };
        proof {
            assert(bt == header_btime(buf@));
        }
        let start_time: i64 = match time_decode(&bt) {
            Ok(t) => t,
            Err(e) => { return Err(MsError::MalformedHeader) },
        };
        let bo0: u16 = read_be16(buf, 46);
        let bo: usize = match find_b1000_exec(buf, bo0 as usize) {
            Some(b) => b,
            None => { return Err(MsError::MalformedHeader) },
        };
        let tag: u8 = buf[bo + 4];
        let wo: u8 = buf[bo + 5];
        let exp: u8 = buf[bo + 6];
        let compressed: bool = tag == 10 || tag == 11;
        if !(tag == 0 || tag == 3 || tag == 4 || tag == 5 || compressed) {
            return Err(MsError::UnsupportedEncoding);
        }
        if wo > 1 {
            return Err(MsError::MalformedHeader);
        }
        if exp < 7 || exp > 20 {
            return Err(MsError::MalformedHeader);
        }
        let reclen: u32 = reclen_of_exp(exp);
        if (buflen as u64) < (reclen as u64) {
            return Err(MsError::MalformedHeader);
        }
        let n: u16 = read_be16(buf, 30);
        let f: i16 = read_be16_signed(buf, 32);
        let m: i16 = read_be16_signed(buf, 34);
        let (num, den): (u64, u64) = rate_parts_of(f, m);
        if n > 0 && num == 0 {
            return Err(MsError::InvalidSampleRate);
        }
        if n > 0 && den > 86_400 {
            return Err(MsError::InvalidSampleRate);
        }
        let doff: u16 = read_be16(buf, 44);
        if doff < 56 {
            return Err(MsError::MalformedHeader);
        }
        if !compressed {
            return Err(MsError::UnsupportedEncoding);
        }
        if samples.len() != n as usize {
            return Err(MsError::DecompressionFailure);
        }
        let rec = ms_record {
            sequence_number: seq,
            data_quality: quality,
            network: read_field(buf, 18, 20),
            station: read_field(buf, 8, 13),
            location: read_field(buf, 13, 15),
            channel: read_field(buf, 15, 18),
            start_time,
            rate_factor: f,
            rate_mult: m,
            encoding: EncodingKind::Compressed { tag },
            word_order: wo,
            reclen_exp: exp,
            data_offset: doff,
            activity_flags: buf[36],
            io_flags: buf[37],
            quality_flags: buf[38],
            time_correction: read_be32_signed(buf, 40),
            data: samples,
        };
        proof {
            lemma_valid_ts_encodable(header_btime(buf@));
            lemma_btime_ts_mod(header_btime(buf@));
            lemma_rate_parts_bounds(f as int, m as int);
            match &rec.data {
                Data::Int(v) => {},
                Data::Float(v) => {},
                Data::Double(v) => {},
                Data::Ascii(v) => {},
            }
        }
        Ok(rec)
    }
}

} // verus!
