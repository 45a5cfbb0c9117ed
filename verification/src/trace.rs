//! Traces and the trace group: ordered runs of uniformly spaced samples
//! for one channel, assembled from records, with healing, sorting and
//! gap/availability analysis.

use vstd::prelude::*;
use crate::error::MsError;
use crate::record::{Data, ms_record, data_min, data_max, is_min_i32, is_max_i32, id_field_wf,
    rate_num_of, rate_den_of, sample_offset_spec, chars_of_bytes, ascii_string, append_bytes,
    rate_parts_of};
use crate::time::encodable;
use vstd::string::StringSliceAdditionalSpecFns;

verus! {

/// The span cap of one trace: the product of its sample count and rate
/// denominator stays below this, which keeps every derived time within
/// the representable timestamp range.
pub const TRACE_SPAN_CAP: u64 = 0x10_0000_0000;

/// A contiguous, uniformly sampled run of data for one channel,
/// assembled by concatenating compatible records.
#[derive(Debug)]
pub struct Trace {
    pub network: Vec<u8>,
    pub station: Vec<u8>,
    pub location: Vec<u8>,
    pub channel: Vec<u8>,
    pub rate_factor: i16,
    pub rate_mult: i16,
    pub start_time: i64,
    pub data: Data,
}

impl Trace {
    /// The number of samples held.
    pub open spec fn npts_spec(&self) -> int {
        self.data.spec_len()
    }

    /// The samples-per-second numerator.
    pub open spec fn rate_num(&self) -> int {
        rate_num_of(self.rate_factor as int, self.rate_mult as int)
    }

    /// The samples-per-second denominator.
    pub open spec fn rate_den(&self) -> int {
        rate_den_of(self.rate_factor as int, self.rate_mult as int)
    }

    /// The identity bytes: network, station, location and channel,
    /// joined with underscores.
    pub open spec fn id_bytes(&self) -> Seq<u8> {
        self.network@ + seq![95u8] + self.station@ + seq![95u8] + self.location@ + seq![95u8]
            + self.channel@
    }

    /// The time of the last sample.
    pub open spec fn end_spec(&self) -> int {
        self.start_time + sample_offset_spec(self.npts_spec() - 1, self.rate_num(), self.rate_den())
    }

    /// The time one sample period past the last sample.
    pub open spec fn end1_spec(&self) -> int {
        self.start_time + sample_offset_spec(self.npts_spec(), self.rate_num(), self.rate_den())
    }

    /// Well-formedness: a trace always holds at least one sample at a
    /// positive, bounded rate, starts at a representable time, and its
    /// span stays under the cap.
    pub open spec fn wf(&self) -> bool {
        &&& id_field_wf(self.network@, 2)
        &&& id_field_wf(self.station@, 5)
        &&& id_field_wf(self.location@, 2)
        &&& id_field_wf(self.channel@, 3)
        &&& encodable(self.start_time as int)
        &&& self.npts_spec() >= 1
        &&& 1 <= self.rate_num() <= 0x4000_0000
        &&& 1 <= self.rate_den() <= 86_400
        &&& self.npts_spec() * self.rate_den() <= TRACE_SPAN_CAP
    }

    /// The default merge tolerance: half of one sample period, in
    /// microseconds.
    pub open spec fn tolerance_spec(&self) -> int {
        sample_offset_spec(1, self.rate_num(), self.rate_den()) / 2
    }
}

/// Sample offsets are non-negative and bounded by the span cap.
pub proof fn lemma_offset_bounds(i: int, num: int, den: int)
    requires
        0 <= i,
        1 <= num,
        1 <= den,
        i * den <= TRACE_SPAN_CAP,
    ensures
        0 <= sample_offset_spec(i, num, den) <= TRACE_SPAN_CAP * 1_000_000,
{
    assert(0 <= i * den) by (nonlinear_arith)
        requires
            0 <= i,
            1 <= den,
    ;
    vstd::arithmetic::div_mod::lemma_div_pos_is_pos(i * den * 1_000_000, num);
    vstd::arithmetic::div_mod::lemma_div_nonincreasing(i * den * 1_000_000, num);
}

/// Sample offsets grow with the sample index.
pub proof fn lemma_offset_mono(i: int, j: int, num: int, den: int)
    requires
        0 <= i <= j,
        1 <= num,
        1 <= den,
    ensures
        sample_offset_spec(i, num, den) <= sample_offset_spec(j, num, den),
{
    assert(i * den <= j * den) by (nonlinear_arith)
        requires
            i <= j,
            1 <= den,
    ;
    vstd::arithmetic::div_mod::lemma_div_is_ordered(
        i * den * 1_000_000,
        j * den * 1_000_000,
        num,
    );
}

/// Strict lexicographic order on byte strings.
pub open spec fn bytes_lt(a: Seq<u8>, b: Seq<u8>) -> bool
    decreases a.len(),
{
    if b.len() == 0 {
        false
    } else if a.len() == 0 {
        true
    } else if a[0] < b[0] {
        true
    } else if a[0] > b[0] {
        false
    } else {
        bytes_lt(a.subrange(1, a.len() as int), b.subrange(1, b.len() as int))
    }
}

/// Byte strings are totally ordered: two strings are equal or one is
/// strictly below the other.
pub proof fn lemma_bytes_trichotomy(a: Seq<u8>, b: Seq<u8>)
    ensures
        bytes_lt(a, b) || bytes_lt(b, a) || a == b,
    decreases a.len(),
{
    if a.len() == 0 || b.len() == 0 {
        if a.len() == b.len() {
            assert(a =~= b);
        }
    } else if a[0] == b[0] {
        let a1 = a.subrange(1, a.len() as int);
        let b1 = b.subrange(1, b.len() as int);
        lemma_bytes_trichotomy(a1, b1);
        if !bytes_lt(a, b) && !bytes_lt(b, a) {
            assert(a1 == b1);
            assert(a.len() == b.len());
            assert forall|i: int| 0 <= i < a.len() implies a[i] == b[i] by {
                if i > 0 {
                    assert(a1[i - 1] == a[i]);
                    assert(b1[i - 1] == b[i]);
                }
            }
            assert(a =~= b);
        }
    }
}

/// The strict byte order is irreflexive and transitive.
pub proof fn lemma_bytes_lt_trans(a: Seq<u8>, b: Seq<u8>, c: Seq<u8>)
    requires
        bytes_lt(a, b),
        bytes_lt(b, c),
    ensures
        bytes_lt(a, c),
        !bytes_lt(b, a),
    decreases a.len() + b.len() + c.len(),
{
    lemma_bytes_lt_asym(a, b);
    if a.len() == 0 {
        assert(c.len() > 0);
    } else {
        assert(b.len() > 0 && c.len() > 0);
        let a1 = a.subrange(1, a.len() as int);
        let b1 = b.subrange(1, b.len() as int);
        let c1 = c.subrange(1, c.len() as int);
        if a[0] == b[0] && b[0] == c[0] {
            lemma_bytes_lt_trans(a1, b1, c1);
        }
    }
}

/// The strict byte order is asymmetric.
pub proof fn lemma_bytes_lt_asym(a: Seq<u8>, b: Seq<u8>)
    requires
        bytes_lt(a, b),
    ensures
        !bytes_lt(b, a),
    decreases a.len(),
{
    if a.len() > 0 && b.len() > 0 && a[0] == b[0] {
        lemma_bytes_lt_asym(a.subrange(1, a.len() as int), b.subrange(1, b.len() as int));
    }
}

/// The sort order of traces: by identity bytes, then by start time.
pub open spec fn trace_le(t1: Trace, t2: Trace) -> bool {
    bytes_lt(t1.id_bytes(), t2.id_bytes()) || (t1.id_bytes() == t2.id_bytes()
        && t1.start_time <= t2.start_time)
}

/// The trace order is total.
pub proof fn lemma_trace_le_total(t1: Trace, t2: Trace)
    ensures
        trace_le(t1, t2) || trace_le(t2, t1),
{
    lemma_bytes_trichotomy(t1.id_bytes(), t2.id_bytes());
}

/// The trace order is transitive.
pub proof fn lemma_trace_le_trans(t1: Trace, t2: Trace, t3: Trace)
    requires
        trace_le(t1, t2),
        trace_le(t2, t3),
    ensures
        trace_le(t1, t3),
{
    let a = t1.id_bytes();
    let b = t2.id_bytes();
    let c = t3.id_bytes();
    if bytes_lt(a, b) && bytes_lt(b, c) {
        lemma_bytes_lt_trans(a, b, c);
    }
}

/// The one-record trace a record founds.
pub open spec fn trace_of_record(rec: ms_record) -> Trace {
    Trace {
        network: rec.network,
        station: rec.station,
        location: rec.location,
        channel: rec.channel,
        rate_factor: rec.rate_factor,
        rate_mult: rec.rate_mult,
        start_time: rec.start_time,
        data: rec.data,
    }
}

/// Whether a trace shaped like `t1` but holding `n1` samples may take
/// a trace shaped like `t2` holding `n2` samples at its end: same
/// channel, the same rational rate, the same sample form, `t2`
/// beginning within the merge tolerance of where `t1`'s `n1` samples
/// end, and a combined span under the cap. Joinability reads a trace's
/// samples only through their count and form, which this form makes
/// explicit.
pub open spec fn mergeable_n(t1: Trace, n1: int, t2: Trace, n2: int) -> bool {
    &&& t1.network@ == t2.network@
    &&& t1.station@ == t2.station@
    &&& t1.location@ == t2.location@
    &&& t1.channel@ == t2.channel@
    &&& t1.rate_num() * t2.rate_den() == t2.rate_num() * t1.rate_den()
    &&& data_variant_eq(t1.data, t2.data)
    &&& -t1.tolerance_spec() <= t2.start_time - (t1.start_time + sample_offset_spec(
        n1,
        t1.rate_num(),
        t1.rate_den(),
    )) <= t1.tolerance_spec()
    &&& (n1 + n2) * t1.rate_den() <= TRACE_SPAN_CAP
}

/// Whether `t2` may be joined to the end of `t1`.
pub open spec fn mergeable(t1: Trace, t2: Trace) -> bool {
    mergeable_n(t1, t1.npts_spec(), t2, t2.npts_spec())
}

/// The join of a pair: the earlier trace's identity, rate and start,
/// with the later trace's samples concatenated after the earlier ones
/// — chronological order, whatever the pair's list order was.
pub open spec fn chrono_merged_ok(t: Trace, t1: Trace, t2: Trace) -> bool {
    &&& t.network@ == t1.network@
    &&& t.station@ == t1.station@
    &&& t.location@ == t1.location@
    &&& t.channel@ == t1.channel@
    &&& t.rate_factor == t1.rate_factor
    &&& t.rate_mult == t1.rate_mult
    &&& t.start_time == t1.start_time
    &&& data_concat_ok(t.data, t1.data, t2.data)
}

/// The least list position whose trace may take `t` at its end, or a
/// negative value when none may.
pub open spec fn first_extendable(ts: Seq<Trace>, t: Trace) -> int
    decreases ts.len(),
{
    if ts.len() == 0 {
        -1
    } else if mergeable(ts[0], t) {
        0
    } else {
        let r = first_extendable(ts.drop_first(), t);
        if r < 0 {
            -1
        } else {
            r + 1
        }
    }
}

/// The position found by a front-to-back scan is the least extendable
/// one.
pub proof fn lemma_first_extendable_is(ts: Seq<Trace>, t: Trace, i: int)
    requires
        0 <= i < ts.len(),
        mergeable(ts[i], t),
        forall|j: int| 0 <= j < i ==> !mergeable(#[trigger] ts[j], t),
    ensures
        first_extendable(ts, t) == i,
    decreases ts.len(),
{
    if i > 0 {
        let tail = ts.drop_first();
        assert(forall|j: int| 0 <= j < tail.len() ==> tail[j] == #[trigger] ts[j + 1]);
        lemma_first_extendable_is(tail, t, i - 1);
    }
}

/// A scan that found no extendable trace leaves no position.
pub proof fn lemma_first_extendable_none(ts: Seq<Trace>, t: Trace)
    requires
        forall|j: int| 0 <= j < ts.len() ==> !mergeable(#[trigger] ts[j], t),
    ensures
        first_extendable(ts, t) < 0,
    decreases ts.len(),
{
    if ts.len() > 0 {
        let tail = ts.drop_first();
        assert(forall|j: int| 0 <= j < tail.len() ==> tail[j] == #[trigger] ts[j + 1]);
        lemma_first_extendable_none(tail, t);
    }
}

/// One healing step at positions `i` and `j`: both leave the list and
/// their chronological join is appended.
pub open spec fn merge_step_at(ts1: Seq<Trace>, ts2: Seq<Trace>, i: int, j: int) -> bool {
    exists|t: Trace|
        #![trigger chrono_merged_ok(t, ts1[i], ts1[j])]
        chrono_merged_ok(t, ts1[i], ts1[j]) && ts2 == ts1.remove(
            if i > j {
                i
            } else {
                j
            },
        ).remove(
            if i > j {
                j
            } else {
                i
            },
        ).push(t)
}

/// One healing step: some joinable pair leaves the list and its
/// chronological join is appended.
pub open spec fn merge_step(ts1: Seq<Trace>, ts2: Seq<Trace>) -> bool {
    exists|i: int, j: int|
        #![trigger ts1[i], ts1[j]]
        0 <= i < ts1.len() && 0 <= j < ts1.len() && i != j && mergeable(ts1[i], ts1[j])
            && merge_step_at(ts1, ts2, i, j)
}

/// Whether `ts2` arises from `ts1` by `k` healing steps, each the
/// chronological join of a joinable pair.
pub open spec fn healed_from(ts1: Seq<Trace>, ts2: Seq<Trace>, k: nat) -> bool
    decreases k,
{
    if k == 0 {
        ts1 == ts2
    } else {
        exists|mid: Seq<Trace>|
            #![trigger merge_step(ts1, mid)]
            merge_step(ts1, mid) && healed_from(mid, ts2, (k - 1) as nat)
    }
}

/// A healing run extends by one more step at its end.
proof fn lemma_healed_step(a: Seq<Trace>, b: Seq<Trace>, c: Seq<Trace>, k: nat)
    requires
        healed_from(a, b, k),
        merge_step(b, c),
    ensures
        healed_from(a, c, (k + 1) as nat),
    decreases k,
{
    if k == 0 {
        assert(healed_from(c, c, 0));
        assert(merge_step(a, c) && healed_from(c, c, ((k + 1) - 1) as nat));
    } else {
        let mid = choose|mid: Seq<Trace>|
            #![trigger merge_step(a, mid)]
            merge_step(a, mid) && healed_from(mid, b, (k - 1) as nat);
        lemma_healed_step(mid, b, c, (k - 1) as nat);
        assert(merge_step(a, mid) && healed_from(mid, c, ((k + 1) - 1) as nat));
    }
}

/// The list that insertion hands to healing: the record extends the
/// first trace that may take it at its end, or founds a new trace at
/// the back.
pub open spec fn inserted_ok(ts: Seq<Trace>, rec: ms_record, mid: Seq<Trace>) -> bool {
    let fe = first_extendable(ts, trace_of_record(rec));
    if fe >= 0 {
        &&& mid.len() == ts.len()
        &&& forall|k: int| 0 <= k < ts.len() && k != fe ==> mid[k] == #[trigger] ts[k]
        &&& chrono_merged_ok(mid[fe], ts[fe], trace_of_record(rec))
    } else {
        mid == ts.push(trace_of_record(rec))
    }
}

/// Whether the list would hold no joinable pair after the trace at
/// `idx` grows by `extra` samples.
pub open spec fn no_mergeable_after_extend(ts: Seq<Trace>, idx: int, extra: int) -> bool {
    forall|i: int, j: int|
        0 <= i < ts.len() && 0 <= j < ts.len() && i != j ==> !mergeable_n(
            #[trigger] ts[i],
            ts[i].npts_spec() + if i == idx {
                extra
            } else {
                0
            },
            #[trigger] ts[j],
            ts[j].npts_spec() + if j == idx {
                extra
            } else {
                0
            },
        )
}

/// Whether two sample stores have the same form.
pub open spec fn data_variant_eq(d1: Data, d2: Data) -> bool {
    match (d1, d2) {
        (Data::Int(_), Data::Int(_)) => true,
        (Data::Float(_), Data::Float(_)) => true,
        (Data::Double(_), Data::Double(_)) => true,
        (Data::Ascii(_), Data::Ascii(_)) => true,
        _ => false,
    }
}

/// Copies a byte field.
fn copy_bytes(src: &Vec<u8>) -> (r: Vec<u8>)
    ensures
        r@ == src@,
{
    let mut r: Vec<u8> = Vec::new();
    append_bytes(&mut r, src);
    proof {
        assert(r@ =~= src@);
    }
    r
}

/// Appends all values of `src` to `dst`.
fn append_vals<T: Copy>(dst: &mut Vec<T>, src: &Vec<T>)
    ensures
        final(dst)@ == old(dst)@ + src@,
{
    let mut i: usize = 0;
    while i < src.len()
        invariant
            i <= src@.len(),
            dst@ == old(dst)@ + src@.subrange(0, i as int),
        decreases src@.len() - i,
    {
        dst.push(src[i]);
        proof {
            assert(dst@ =~= old(dst)@ + src@.subrange(0, i + 1));
        }
        i = i + 1;
    }
    proof {
        assert(old(dst)@ + src@.subrange(0, src@.len() as int) =~= old(dst)@ + src@);
    }
}

/// The concatenation of two sample stores of the same form.
pub open spec fn data_concat_ok(d: Data, d1: Data, d2: Data) -> bool {
    match (d, d1, d2) {
        (Data::Int(v), Data::Int(a), Data::Int(b)) => v@ == a@ + b@,
        (Data::Float(v), Data::Float(a), Data::Float(b)) => v@ == a@ + b@,
        (Data::Double(v), Data::Double(a), Data::Double(b)) => v@ == a@ + b@,
        (Data::Ascii(v), Data::Ascii(a), Data::Ascii(b)) => v@ == a@ + b@,
        _ => false,
    }
}

/// The concatenation of two sample stores of the same form, copied
/// into fresh storage.
fn concat_data(d1: &Data, d2: &Data) -> (r: Data)
    requires
        data_variant_eq(*d1, *d2),
    ensures
        data_concat_ok(r, *d1, *d2),
        r.spec_len() == d1.spec_len() + d2.spec_len(),
{
    match (d1, d2) {
        (Data::Int(a), Data::Int(b)) => {
            let mut v: Vec<i32> = Vec::new();
            append_vals(&mut v, a);
            append_vals(&mut v, b);
            proof {
                assert(v@ =~= a@ + b@);
            }
            Data::Int(v)
        },
        (Data::Float(a), Data::Float(b)) => {
            let mut v: Vec<u32> = Vec::new();
            append_vals(&mut v, a);
            append_vals(&mut v, b);
            proof {
                assert(v@ =~= a@ + b@);
            }
            Data::Float(v)
        },
        (Data::Double(a), Data::Double(b)) => {
            let mut v: Vec<u64> = Vec::new();
            append_vals(&mut v, a);
            append_vals(&mut v, b);
            proof {
                assert(v@ =~= a@ + b@);
            }
            Data::Double(v)
        },
        (Data::Ascii(a), Data::Ascii(b)) => {
            let mut v: Vec<u8> = Vec::new();
            append_vals(&mut v, a);
            append_vals(&mut v, b);
            proof {
                assert(v@ =~= a@ + b@);
            }
            Data::Ascii(v)
        },
        _ => {
            proof {
                assert(false);
            }
            Data::Int(Vec::new())
        },
    }
}

/// Compares two byte strings in the strict lexicographic order.
fn bytes_lt_exec(a: &Vec<u8>, b: &Vec<u8>) -> (r: bool)
    ensures
        r == bytes_lt(a@, b@),
{
    let n: usize = if a.len() < b.len() {
        a.len()
    } else {
        b.len()
    };
    proof {
        assert(a@.subrange(0, a@.len() as int) =~= a@);
        assert(b@.subrange(0, b@.len() as int) =~= b@);
    }
    let mut i: usize = 0;
    while i < n
        invariant
            i <= n,
            n == if a@.len() < b@.len() {
                a@.len()
            } else {
                b@.len()
            },
            forall|j: int| 0 <= j < i ==> a@[j] == b@[j],
            bytes_lt(a@, b@) == bytes_lt(
                a@.subrange(i as int, a@.len() as int),
                b@.subrange(i as int, b@.len() as int),
            ),
        decreases n - i,
    {
        let ghost ai = a@.subrange(i as int, a@.len() as int);
        let ghost bi = b@.subrange(i as int, b@.len() as int);
        if a[i] < b[i] {
            proof {
                assert(ai[0] == a@[i as int] && bi[0] == b@[i as int]);
            }
            return true;
        }
        if a[i] > b[i] {
            proof {
                assert(ai[0] == a@[i as int] && bi[0] == b@[i as int]);
            }
            return false;
        }
        proof {
            assert(ai[0] == a@[i as int] && bi[0] == b@[i as int]);
            assert(ai.subrange(1, ai.len() as int) =~= a@.subrange(i + 1, a@.len() as int));
            assert(bi.subrange(1, bi.len() as int) =~= b@.subrange(i + 1, b@.len() as int));
        }
        i = i + 1;
    }
    proof {
        let ai = a@.subrange(i as int, a@.len() as int);
        let bi = b@.subrange(i as int, b@.len() as int);
        assert(ai.len() == 0 || bi.len() == 0);
    }
    a.len() < b.len()
}

/// Compares two byte strings for equality.
fn bytes_eq_exec(a: &Vec<u8>, b: &Vec<u8>) -> (r: bool)
    ensures
        r == (a@ == b@),
{
    if a.len() != b.len() {
        proof {
            assert(a@ != b@);
        }
        return false;
    }
    let mut i: usize = 0;
    while i < a.len()
        invariant
            i <= a@.len(),
            a@.len() == b@.len(),
            forall|j: int| 0 <= j < i ==> a@[j] == b@[j],
        decreases a@.len() - i,
    {
        if a[i] != b[i] {
            return false;
        }
        i = i + 1;
    }
    proof {
        assert(a@ =~= b@);
    }
    true
}

impl Trace {
    /// The identity bytes as a fresh buffer.
    fn id_bytes_vec(&self) -> (r: Vec<u8>)
        ensures
            r@ == self.id_bytes(),
    {
        let mut b: Vec<u8> = Vec::new();
        append_bytes(&mut b, &self.network);
        b.push(95);
        append_bytes(&mut b, &self.station);
        b.push(95);
        append_bytes(&mut b, &self.location);
        b.push(95);
        append_bytes(&mut b, &self.channel);
        proof {
            assert(b@ =~= self.id_bytes());
        }
        b
    }

    /// The trace identity as text: `network_station_location_channel`.
    pub fn id(&self) -> (r: String)
        requires
            self.wf(),
        ensures
            r@ == chars_of_bytes(self.id_bytes()),
    {
        ascii_string(self.id_bytes_vec())
    }

    /// The number of samples held.
    pub fn npts(&self) -> (n: usize)
        ensures
            n == self.npts_spec(),
    {
        self.data.len()
    }

    /// The time of the first sample.
    pub fn start(&self) -> (t: i64)
        ensures
            t == self.start_time,
    {
        self.start_time
    }

    /// The time of the last sample.
    pub fn end(&self) -> (t: i64)
        requires
            self.wf(),
        ensures
            t == self.end_spec(),
    {
        proof {
            assert((self.npts_spec() - 1) * self.rate_den() <= TRACE_SPAN_CAP)
                by (nonlinear_arith)
                requires
                    self.npts_spec() >= 1,
                    self.rate_den() >= 1,
                    self.npts_spec() * self.rate_den() <= TRACE_SPAN_CAP,
            ;
            lemma_offset_bounds(self.npts_spec() - 1, self.rate_num(), self.rate_den());
            lemma_offset_mono(
                self.npts_spec() - 1,
                self.npts_spec(),
                self.rate_num(),
                self.rate_den(),
            );
        }
        let n: usize = self.npts();
        let (num, den): (u64, u64) = rate_parts_of(self.rate_factor, self.rate_mult);
        let prod: u64 = (n as u64 - 1) * den * 1_000_000;
        let off: u64 = prod / num;
        self.start_time + (off as i64)
    }

    /// The time one sample period past the last sample, used for
    /// adjacency tests.
    pub fn end1(&self) -> (t: i64)
        requires
            self.wf(),
        ensures
            t == self.end1_spec(),
    {
        proof {
            lemma_offset_bounds(self.npts_spec(), self.rate_num(), self.rate_den());
        }
        let n: usize = self.npts();
        let (num, den): (u64, u64) = rate_parts_of(self.rate_factor, self.rate_mult);
        let prod: u64 = (n as u64) * den * 1_000_000;
        let off: u64 = prod / num;
        self.start_time + (off as i64)
    }

    /// The least sample of an integer trace; refused for other sample
    /// forms.
    pub fn min(&self) -> (r: Result<i32, MsError>)
        ensures
            match &self.data {
                Data::Int(v) => if v@.len() == 0 {
                    r == Err::<i32, MsError>(MsError::EmptyData)
                } else {
                    r matches Ok(x) && is_min_i32(x as int, v@)
                },
                _ => r == Err::<i32, MsError>(MsError::TypeMismatch),
            },
    {
        data_min(&self.data)
    }

    /// The greatest sample of an integer trace; refused for other
    /// sample forms.
    pub fn max(&self) -> (r: Result<i32, MsError>)
        ensures
            match &self.data {
                Data::Int(v) => if v@.len() == 0 {
                    r == Err::<i32, MsError>(MsError::EmptyData)
                } else {
                    r matches Ok(x) && is_max_i32(x as int, v@)
                },
                _ => r == Err::<i32, MsError>(MsError::TypeMismatch),
            },
    {
        data_max(&self.data)
    }

    /// A one-record trace. The record must carry samples: an empty
    /// record founds no trace.
    pub fn from_record(rec: ms_record) -> (r: Trace)
        requires
            rec.wf(),
            rec.npts_spec() >= 1,
        ensures
            r == trace_of_record(rec),
            r.wf(),
    {
        let t = Trace {
            network: rec.network,
            station: rec.station,
            location: rec.location,
            channel: rec.channel,
            rate_factor: rec.rate_factor,
            rate_mult: rec.rate_mult,
            start_time: rec.start_time,
            data: rec.data,
        };
        proof {
            assert(t.npts_spec() * t.rate_den() <= 65_535 * 86_400) by (nonlinear_arith)
                requires
                    1 <= t.npts_spec() <= 65_535,
                    1 <= t.rate_den() <= 86_400,
            ;
            match &t.data {
                Data::Int(v) => {},
                Data::Float(v) => {},
                Data::Double(v) => {},
                Data::Ascii(v) => {},
            }
        }
        t
    }

    /// Whether `other` may be joined to the end of this trace.
    pub fn can_merge(&self, other: &Trace) -> (r: bool)
        requires
            self.wf(),
            other.wf(),
        ensures
            r == mergeable(*self, *other),
    {
        if !bytes_eq_exec(&self.network, &other.network) || !bytes_eq_exec(
            &self.station,
            &other.station,
        ) || !bytes_eq_exec(&self.location, &other.location) || !bytes_eq_exec(
            &self.channel,
            &other.channel,
        ) {
            return false;
        }
        let (num1, den1): (u64, u64) = rate_parts_of(self.rate_factor, self.rate_mult);
        let (num2, den2): (u64, u64) = rate_parts_of(other.rate_factor, other.rate_mult);
        proof {
            assert(num1 * den2 < 0x8000_0000_0000_0000 && num2 * den1 < 0x8000_0000_0000_0000)
                by (nonlinear_arith)
                requires
                    num1 <= 0x4000_0000,
                    den2 <= 86_400,
                    num2 <= 0x4000_0000,
                    den1 <= 86_400,
            ;
        }
        if num1 * den2 != num2 * den1 {
            return false;
        }
        let variants_match: bool = match (&self.data, &other.data) {
            (Data::Int(_), Data::Int(_)) => true,
            (Data::Float(_), Data::Float(_)) => true,
            (Data::Double(_), Data::Double(_)) => true,
            (Data::Ascii(_), Data::Ascii(_)) => true,
            _ => false,
        };
        if !variants_match {
            return false;
        }
        proof {
            lemma_offset_bounds(self.npts_spec(), self.rate_num(), self.rate_den());
            lemma_offset_bounds(1, self.rate_num(), self.rate_den());
            lemma_offset_mono(1, self.npts_spec(), self.rate_num(), self.rate_den());
            assert(1 * den1 <= TRACE_SPAN_CAP);
            vstd::arithmetic::div_mod::lemma_div_pos_is_pos(
                sample_offset_spec(1, self.rate_num(), self.rate_den()),
                2,
            );
            vstd::arithmetic::div_mod::lemma_div_nonincreasing(
                sample_offset_spec(1, self.rate_num(), self.rate_den()),
                2,
            );
        }
        let e1: i64 = self.end1();
        let period_prod: u64 = den1 * 1_000_000;
        let tol: i64 = (period_prod / num1 / 2) as i64;
        let diff: i64 = if other.start_time >= e1 {
            other.start_time - e1
        } else {
            e1 - other.start_time
        };
        if !(diff <= tol) {
            return false;
        }
        let n1: u64 = self.npts() as u64;
        let n2: u64 = other.npts() as u64;
        proof {
            assert(n1 <= TRACE_SPAN_CAP) by (nonlinear_arith)
                requires
                    0 <= n1,
                    n1 * (self.rate_den() as int) <= TRACE_SPAN_CAP,
                    1 <= self.rate_den(),
                    n1 as int == self.npts_spec(),
                    self.npts_spec() * self.rate_den() <= TRACE_SPAN_CAP,
            ;
            assert(n2 <= TRACE_SPAN_CAP) by (nonlinear_arith)
                requires
                    0 <= n2,
                    n2 as int == other.npts_spec(),
                    other.npts_spec() * other.rate_den() <= TRACE_SPAN_CAP,
                    1 <= other.rate_den(),
            ;
            assert((n1 + n2) * den1 <= 2 * TRACE_SPAN_CAP * 86_400) by (nonlinear_arith)
                requires
                    n1 <= TRACE_SPAN_CAP,
                    n2 <= TRACE_SPAN_CAP,
                    0 <= den1 <= 86_400,
            ;
        }
        (n1 + n2) * den1 <= TRACE_SPAN_CAP
    }

    /// Appends a record's samples if and only if the record carries
    /// samples and, taken as a one-record trace, may be joined to this
    /// trace's end; otherwise reports an incompatible merge and leaves
    /// the trace unchanged.
    pub fn extend(&mut self, rec: ms_record) -> (r: Result<(), MsError>)
        requires
            old(self).wf(),
            rec.wf(),
        ensures
            final(self).wf(),
            r is Ok <==> rec.npts_spec() >= 1 && mergeable(*old(self), trace_of_record(rec)),
            r is Ok ==> final(self).start_time == old(self).start_time,
            r is Ok ==> final(self).npts_spec() == old(self).npts_spec() + rec.npts_spec(),
            r is Ok ==> data_concat_ok(final(self).data, old(self).data, rec.data),
            r is Ok ==> final(self).network@ == old(self).network@ && final(self).station@
                == old(self).station@ && final(self).location@ == old(self).location@
                && final(self).channel@ == old(self).channel@,
            r is Ok ==> final(self).rate_factor == old(self).rate_factor && final(self).rate_mult
                == old(self).rate_mult,
            r is Err ==> *final(self) == *old(self) && r == Err::<(), MsError>(
                MsError::IncompatibleMerge,
            ),
    {
        if rec.npts() == 0 {
            return Err(MsError::IncompatibleMerge);
        }
        let other = Trace::from_record(rec);
        if !self.can_merge(&other) {
            proof {
                match (&other.data, &self.data) {
                    (Data::Int(a), Data::Int(b)) => {},
                    (Data::Float(a), Data::Float(b)) => {},
                    (Data::Double(a), Data::Double(b)) => {},
                    (Data::Ascii(a), Data::Ascii(b)) => {},
                    _ => {},
                }
            }
            return Err(MsError::IncompatibleMerge);
        }
        let merged_data = concat_data(&self.data, &other.data);
        self.data = merged_data;
        proof {
            assert((old(self).npts_spec() + rec.npts_spec()) * old(self).rate_den()
                <= TRACE_SPAN_CAP);
        }
        Ok(())
    }
}

/// The total number of samples across a run of traces.
pub open spec fn sum_npts(ts: Seq<Trace>) -> int
    decreases ts.len(),
{
    if ts.len() == 0 {
        0
    } else {
        sum_npts(ts.drop_last()) + ts.last().npts_spec()
    }
}

/// Removing one trace subtracts its samples from the total.
proof fn lemma_sum_remove(ts: Seq<Trace>, i: int)
    requires
        0 <= i < ts.len(),
    ensures
        sum_npts(ts.remove(i)) == sum_npts(ts) - ts[i].npts_spec(),
    decreases ts.len(),
{
    if i == ts.len() - 1 {
        assert(ts.remove(i) =~= ts.drop_last());
    } else {
        lemma_sum_remove(ts.drop_last(), i);
        assert(ts.remove(i).drop_last() =~= ts.drop_last().remove(i));
        assert(ts.remove(i).last() == ts.last());
    }
}

/// Appending one trace adds its samples to the total.
proof fn lemma_sum_push(ts: Seq<Trace>, t: Trace)
    ensures
        sum_npts(ts.push(t)) == sum_npts(ts) + t.npts_spec(),
{
    assert(ts.push(t).drop_last() =~= ts);
    assert(ts.push(t).last() == t);
}

/// Inserting one trace adds its samples to the total.
proof fn lemma_sum_insert(ts: Seq<Trace>, i: int, t: Trace)
    requires
        0 <= i <= ts.len(),
    ensures
        sum_npts(ts.insert(i, t)) == sum_npts(ts) + t.npts_spec(),
{
    assert(ts.insert(i, t).remove(i) =~= ts);
    lemma_sum_remove(ts.insert(i, t), i);
}

/// The total number of samples held for one identity.
pub open spec fn sum_npts_id(ts: Seq<Trace>, id: Seq<u8>) -> int
    decreases ts.len(),
{
    if ts.len() == 0 {
        0
    } else {
        sum_npts_id(ts.drop_last(), id) + if ts.last().id_bytes() == id {
            ts.last().npts_spec()
        } else {
            0
        }
    }
}

/// Removing one trace subtracts its samples from its own identity's
/// total and no other.
proof fn lemma_sum_id_remove(ts: Seq<Trace>, i: int, id: Seq<u8>)
    requires
        0 <= i < ts.len(),
    ensures
        sum_npts_id(ts.remove(i), id) == sum_npts_id(ts, id) - if ts[i].id_bytes() == id {
            ts[i].npts_spec()
        } else {
            0
        },
    decreases ts.len(),
{
    if i == ts.len() - 1 {
        assert(ts.remove(i) =~= ts.drop_last());
    } else {
        lemma_sum_id_remove(ts.drop_last(), i, id);
        assert(ts.remove(i).drop_last() =~= ts.drop_last().remove(i));
        assert(ts.remove(i).last() == ts.last());
    }
}

/// Appending one trace adds its samples to its own identity's total
/// and no other.
proof fn lemma_sum_id_push(ts: Seq<Trace>, t: Trace, id: Seq<u8>)
    ensures
        sum_npts_id(ts.push(t), id) == sum_npts_id(ts, id) + if t.id_bytes() == id {
            t.npts_spec()
        } else {
            0
        },
{
    assert(ts.push(t).drop_last() =~= ts);
    assert(ts.push(t).last() == t);
}

/// Inserting one trace adds its samples to its own identity's total
/// and no other.
proof fn lemma_sum_id_insert(ts: Seq<Trace>, i: int, t: Trace, id: Seq<u8>)
    requires
        0 <= i <= ts.len(),
    ensures
        sum_npts_id(ts.insert(i, t), id) == sum_npts_id(ts, id) + if t.id_bytes() == id {
            t.npts_spec()
        } else {
            0
        },
{
    assert(ts.insert(i, t).remove(i) =~= ts);
    lemma_sum_id_remove(ts.insert(i, t), i, id);
    assert(ts.insert(i, t)[i] == t);
}

/// No pair of distinct traces can be joined, in either order.
pub open spec fn no_mergeable(ts: Seq<Trace>) -> bool {
    forall|i: int, j: int|
        0 <= i < ts.len() && 0 <= j < ts.len() && i != j ==> !mergeable(
            #[trigger] ts[i],
            #[trigger] ts[j],
        )
}

/// The traces stand in the sort order.
pub open spec fn sorted_traces(ts: Seq<Trace>) -> bool {
    forall|i: int, j: int| 0 <= i < j < ts.len() ==> trace_le(#[trigger] ts[i], #[trigger] ts[j])
}

/// The elements of `ts` whose sort key (identity bytes, start time) is
/// exactly (`id`, `s`), in list order.
pub open spec fn key_run(ts: Seq<Trace>, id: Seq<u8>, s: i64) -> Seq<Trace> {
    ts.filter(|t: Trace| t.id_bytes() == id && t.start_time == s)
}

/// Moving an element backwards over a run of elements of other keys
/// keeps every key's run: the step of a stable insertion sort.
proof fn lemma_stable_step(ts: Seq<Trace>, p: int, i: int)
    requires
        0 <= p < i < ts.len(),
        forall|q: int|
            p <= q < i ==> !((#[trigger] ts[q]).id_bytes() == ts[i].id_bytes()
                && ts[q].start_time == ts[i].start_time),
    ensures
        forall|id: Seq<u8>, s: i64|
            #[trigger] key_run(ts.remove(i).insert(p, ts[i]), id, s) == key_run(ts, id, s),
{
    let x = ts[i];
    let a = ts.subrange(0, p);
    let m = ts.subrange(p, i);
    let b = ts.subrange(i + 1, ts.len() as int);
    assert(ts =~= a + m + seq![x] + b);
    assert(ts.remove(i).insert(p, x) =~= a + seq![x] + m + b);
    assert forall|id: Seq<u8>, s: i64|
        #[trigger] key_run(ts.remove(i).insert(p, ts[i]), id, s) == key_run(ts, id, s) by {
        let pred = |t: Trace| t.id_bytes() == id && t.start_time == s;
        Seq::filter_distributes_over_add(a + m + seq![x], b, pred);
        Seq::filter_distributes_over_add(a + m, seq![x], pred);
        Seq::filter_distributes_over_add(a, m, pred);
        Seq::filter_distributes_over_add(a + seq![x] + m, b, pred);
        Seq::filter_distributes_over_add(a + seq![x], m, pred);
        Seq::filter_distributes_over_add(a, seq![x], pred);
        if pred(x) {
            // Every element jumped over has another key, so none of
            // them matches this one.
            assert(m.all(|t: Trace| !pred(t))) by {
                assert forall|q: int| 0 <= q < m.len() implies !pred(m[q]) by {
                    assert(m[q] == ts[p + q]);
                }
            }
            m.lemma_all_neg_filter_empty(pred);
            assert(m.filter(pred) =~= Seq::<Trace>::empty());
            assert(a.filter(pred) + m.filter(pred) + seq![x].filter(pred) + b.filter(pred) =~= a.filter(
                pred,
            ) + seq![x].filter(pred) + m.filter(pred) + b.filter(pred));
        } else {
            assert(seq![x].filter(pred) =~= Seq::<Trace>::empty()) by {
                reveal(Seq::filter);
                let sx = seq![x];
                assert(sx.len() == 1);
                assert(sx.last() == x);
                assert(!pred(sx.last()));
                assert(sx.drop_last().len() == 0);
                assert(sx.drop_last().filter(pred) == sx.drop_last());
                assert(sx.filter(pred) == sx.drop_last().filter(pred));
            }
            assert(a.filter(pred) + m.filter(pred) + seq![x].filter(pred) + b.filter(pred) =~= a.filter(
                pred,
            ) + seq![x].filter(pred) + m.filter(pred) + b.filter(pred));
        }
        assert(key_run(ts, id, s) == a.filter(pred) + m.filter(pred) + seq![x].filter(pred)
            + b.filter(pred));
        assert(key_run(ts.remove(i).insert(p, ts[i]), id, s) == a.filter(pred) + seq![x].filter(
            pred,
        ) + m.filter(pred) + b.filter(pred));
    }
}

/// An unordered collection of traces across channels, grown by record
/// insertion, healed, sorted and queried for availability and gaps.
#[derive(Debug)]
pub struct TraceGroup {
    pub traces: Vec<Trace>,
}

impl TraceGroup {
    /// Well-formedness: every trace in the group is well formed.
    pub open spec fn wf(&self) -> bool {
        forall|i: int| 0 <= i < self.traces@.len() ==> (#[trigger] self.traces@[i]).wf()
    }

    /// The empty group.
    pub fn new() -> (r: TraceGroup)
        ensures
            r.wf(),
            r.traces@.len() == 0,
    {
        TraceGroup { traces: Vec::new() }
    }

    /// The number of traces now held.
    pub fn numtraces(&self) -> (n: usize)
        ensures
            n == self.traces@.len(),
    {
        self.traces.len()
    }

    /// The trace at position `i` in the current list order.
    pub fn get_trace(&self, i: usize) -> (r: &Trace)
        requires
            i < self.traces@.len(),
        ensures
            *r == self.traces@[i as int],
    {
        &self.traces[i]
    }

    /// Searches the group for a pair of traces that can be joined.
    fn find_mergeable(&self) -> (r: Option<(usize, usize)>)
        requires
            self.wf(),
        ensures
            r matches Some(p) ==> p.0 < self.traces@.len() && p.1 < self.traces@.len() && p.0
                != p.1 && mergeable(self.traces@[p.0 as int], self.traces@[p.1 as int]),
            r is None ==> no_mergeable(self.traces@),
    {
        let n: usize = self.traces.len();
        let mut i: usize = 0;
        while i < n
            invariant
                i <= n,
                n == self.traces@.len(),
                self.wf(),
                forall|a: int, b: int|
                    0 <= a < i && 0 <= b < n && a != b ==> !mergeable(
                        #[trigger] self.traces@[a],
                        #[trigger] self.traces@[b],
                    ),
            decreases n - i,
        {
            let mut j: usize = 0;
            while j < n
                invariant
                    i < n,
                    j <= n,
                    n == self.traces@.len(),
                    self.wf(),
                    forall|b: int|
                        0 <= b < j && b != i ==> !mergeable(
                            self.traces@[i as int],
                            #[trigger] self.traces@[b],
                        ),
                decreases n - j,
            {
                if j != i {
                    if self.traces[i].can_merge(&self.traces[j]) {
                        return Some((i, j));
                    }
                }
                j = j + 1;
            }
            i = i + 1;
        }
        None
    }

    /// Joins the pair of traces at `i` and `j`, `j` onto the end of
    /// `i`, removing both and appending the joined trace.
    fn merge_pair(&mut self, i: usize, j: usize)
        requires
            old(self).wf(),
            i < old(self).traces@.len(),
            j < old(self).traces@.len(),
            i != j,
            mergeable(old(self).traces@[i as int], old(self).traces@[j as int]),
        ensures
            final(self).wf(),
            final(self).traces@.len() == old(self).traces@.len() - 1,
            sum_npts(final(self).traces@) == sum_npts(old(self).traces@),
            forall|id: Seq<u8>|
                #[trigger] sum_npts_id(final(self).traces@, id) == sum_npts_id(
                    old(self).traces@,
                    id,
                ),
            chrono_merged_ok(
                final(self).traces@.last(),
                old(self).traces@[i as int],
                old(self).traces@[j as int],
            ),
            final(self).traces@.drop_last() == old(self).traces@.remove(
                if i > j {
                    i as int
                } else {
                    j as int
                },
            ).remove(
                if i > j {
                    j as int
                } else {
                    i as int
                },
            ),
            merge_step(old(self).traces@, final(self).traces@),
    {
        let ghost ts = self.traces@;
        let merged = Trace {
            network: copy_bytes(&self.traces[i].network),
            station: copy_bytes(&self.traces[i].station),
            location: copy_bytes(&self.traces[i].location),
            channel: copy_bytes(&self.traces[i].channel),
            rate_factor: self.traces[i].rate_factor,
            rate_mult: self.traces[i].rate_mult,
            start_time: self.traces[i].start_time,
            data: concat_data(&self.traces[i].data, &self.traces[j].data),
        };
        proof {
            assert(merged.npts_spec() == ts[i as int].npts_spec() + ts[j as int].npts_spec());
            assert(merged.wf());
        }
        let (hi, lo): (usize, usize) = if i > j {
            (i, j)
        } else {
            (j, i)
        };
        let t_hi = self.traces.remove(hi);
        let t_lo = self.traces.remove(lo);
        self.traces.push(merged);
        proof {
            lemma_sum_remove(ts, hi as int);
            assert(ts.remove(hi as int)[lo as int] == ts[lo as int]);
            lemma_sum_remove(ts.remove(hi as int), lo as int);
            lemma_sum_push(ts.remove(hi as int).remove(lo as int), merged);
            assert(merged.id_bytes() == ts[i as int].id_bytes());
            assert(ts[j as int].id_bytes() == ts[i as int].id_bytes());
            assert forall|id: Seq<u8>|
                #[trigger] sum_npts_id(self.traces@, id) == sum_npts_id(ts, id) by {
                lemma_sum_id_remove(ts, hi as int, id);
                lemma_sum_id_remove(ts.remove(hi as int), lo as int, id);
                lemma_sum_id_push(ts.remove(hi as int).remove(lo as int), merged, id);
            }
            assert forall|k: int| 0 <= k < self.traces@.len() implies (
            #[trigger] self.traces@[k]).wf() by {
                if k < self.traces@.len() - 1 {
                    assert(self.traces@[k] == ts.remove(hi as int).remove(lo as int)[k]);
                }
            }
            assert(self.traces@.last() == merged);
            assert(chrono_merged_ok(self.traces@.last(), ts[i as int], ts[j as int]));
            assert(self.traces@ == ts.remove(hi as int).remove(lo as int).push(
                self.traces@.last(),
            ));
            assert(merge_step_at(ts, self.traces@, i as int, j as int));
            assert(merge_step(ts, self.traces@));
        }
    }

    /// Joins every pair of traces that have become adjacent within
    /// tolerance, in either arrival order, until none is left. Every
    /// step joins a joinable pair in chronological order: the earlier
    /// trace's samples first, whatever the pair's list order was.
    ///
    /// Healing preserves the total sample count and each identity's
    /// sample count, and it is idempotent: on a group with no joinable
    /// pair it changes nothing, so a second run directly after a first
    /// one is a no-op.
    pub fn heal(&mut self)
        requires
            old(self).wf(),
        ensures
            final(self).wf(),
            no_mergeable(final(self).traces@),
            sum_npts(final(self).traces@) == sum_npts(old(self).traces@),
            forall|id: Seq<u8>|
                #[trigger] sum_npts_id(final(self).traces@, id) == sum_npts_id(
                    old(self).traces@,
                    id,
                ),
            exists|k: nat| healed_from(old(self).traces@, final(self).traces@, k),
            no_mergeable(old(self).traces@) ==> final(self).traces@ == old(self).traces@,
    {
        let ghost mut steps: nat = 0;
        proof {
            assert(healed_from(old(self).traces@, self.traces@, 0));
        }
        loop
            invariant
                self.wf(),
                sum_npts(self.traces@) == sum_npts(old(self).traces@),
                forall|id: Seq<u8>|
                    #[trigger] sum_npts_id(self.traces@, id) == sum_npts_id(
                        old(self).traces@,
                        id,
                    ),
                healed_from(old(self).traces@, self.traces@, steps),
                self.traces@ == old(self).traces@ || !no_mergeable(old(self).traces@),
            decreases self.traces@.len(),
        {
            match self.find_mergeable() {
                None => {
                    return ;
                },
                Some((i, j)) => {
                    let ghost before = self.traces@;
                    self.merge_pair(i, j);
                    proof {
                        lemma_healed_step(old(self).traces@, before, self.traces@, steps);
                        steps = (steps + 1) as nat;
                    }
                },
            }
        }
    }

    /// Moves a record into the group, as the merge policy's insertion
    /// step: the record's samples extend the first trace that may take
    /// them at its end, appended in chronological order; otherwise the
    /// record founds a new trace at the back. Healing then joins
    /// whatever else became adjacent. An empty record carries nothing
    /// to add and is reported instead.
    pub fn add_record(&mut self, rec: ms_record) -> (r: Result<(), MsError>)
        requires
            old(self).wf(),
            rec.wf(),
        ensures
            final(self).wf(),
            r is Ok <==> rec.npts_spec() >= 1,
            r is Ok ==> sum_npts(final(self).traces@) == sum_npts(old(self).traces@)
                + rec.npts_spec() && no_mergeable(final(self).traces@),
            r is Ok ==> forall|id: Seq<u8>|
                #[trigger] sum_npts_id(final(self).traces@, id) == sum_npts_id(
                    old(self).traces@,
                    id,
                ) + if trace_of_record(rec).id_bytes() == id {
                    rec.npts_spec()
                } else {
                    0
                },
            r is Ok ==> exists|mid: Seq<Trace>, k: nat|
                #![trigger healed_from(mid, final(self).traces@, k)]
                inserted_ok(old(self).traces@, rec, mid) && healed_from(
                    mid,
                    final(self).traces@,
                    k,
                ),
            r is Ok && first_extendable(old(self).traces@, trace_of_record(rec)) >= 0
                && no_mergeable_after_extend(
                old(self).traces@,
                first_extendable(old(self).traces@, trace_of_record(rec)),
                rec.npts_spec(),
            ) ==> final(self).traces@.len() == old(self).traces@.len() && (forall|k: int|
                0 <= k < old(self).traces@.len() && k != first_extendable(
                    old(self).traces@,
                    trace_of_record(rec),
                ) ==> final(self).traces@[k] == #[trigger] old(self).traces@[k])
                && chrono_merged_ok(
                final(self).traces@[first_extendable(old(self).traces@, trace_of_record(rec))],
                old(self).traces@[first_extendable(old(self).traces@, trace_of_record(rec))],
                trace_of_record(rec),
            ),
            r is Ok && first_extendable(old(self).traces@, trace_of_record(rec)) < 0
                && no_mergeable(old(self).traces@.push(trace_of_record(rec)))
                ==> final(self).traces@ == old(self).traces@.push(trace_of_record(rec)),
            r is Err ==> *final(self) == *old(self) && r == Err::<(), MsError>(MsError::EmptyData),
    {
        if rec.npts() == 0 {
            return Err(MsError::EmptyData);
        }
        let ghost ts = self.traces@;
        let ghost tsr = trace_of_record(rec);
        let t_new = Trace::from_record(rec);
        let n: usize = self.traces.len();
        let mut i: usize = 0;
        let mut found: bool = false;
        let mut fe: usize = 0;
        while i < n
            invariant
                i <= n,
                n == self.traces@.len(),
                self.traces@ == ts,
                self.wf(),
                t_new == tsr,
                tsr == trace_of_record(rec),
                t_new.wf(),
                !found ==> forall|q: int| 0 <= q < i ==> !mergeable(#[trigger] ts[q], tsr),
                found ==> fe < i && mergeable(ts[fe as int], tsr) && (forall|q: int|
                    0 <= q < fe ==> !mergeable(#[trigger] ts[q], tsr)),
            decreases n - i,
        {
            if !found && self.traces[i].can_merge(&t_new) {
                found = true;
                fe = i;
            }
            i = i + 1;
        }
        if found {
            proof {
                lemma_first_extendable_is(ts, tsr, fe as int);
            }
            let old_t = self.traces.remove(fe);
            let d = concat_data(&old_t.data, &t_new.data);
            let merged = Trace {
                network: old_t.network,
                station: old_t.station,
                location: old_t.location,
                channel: old_t.channel,
                rate_factor: old_t.rate_factor,
                rate_mult: old_t.rate_mult,
                start_time: old_t.start_time,
                data: d,
            };
            proof {
                assert(merged.npts_spec() == ts[fe as int].npts_spec() + rec.npts_spec());
                assert(merged.wf());
                assert(chrono_merged_ok(merged, ts[fe as int], tsr));
            }
            self.traces.insert(fe, merged);
            proof {
                assert(ts.update(fe as int, merged) =~= ts.remove(fe as int).insert(
                    fe as int,
                    merged,
                )) by {
                    vstd::seq_lib::lemma_update_is_remove_insert(ts, fe as int, merged);
                }
                assert(self.traces@ == ts.update(fe as int, merged));
                lemma_sum_remove(ts, fe as int);
                lemma_sum_insert(ts.remove(fe as int), fe as int, merged);
                assert(merged.id_bytes() == ts[fe as int].id_bytes());
                assert(tsr.id_bytes() == ts[fe as int].id_bytes());
                assert forall|id: Seq<u8>|
                    #[trigger] sum_npts_id(self.traces@, id) == sum_npts_id(ts, id)
                        + if tsr.id_bytes() == id {
                        rec.npts_spec()
                    } else {
                        0
                    } by {
                    lemma_sum_id_remove(ts, fe as int, id);
                    lemma_sum_id_insert(ts.remove(fe as int), fe as int, merged, id);
                }
                assert forall|k: int| 0 <= k < self.traces@.len() implies (
                #[trigger] self.traces@[k]).wf() by {
                    if k != fe {
                        assert(self.traces@[k] == ts[k]);
                    }
                }
                assert(inserted_ok(ts, rec, self.traces@));
            }
            let ghost mid = self.traces@;
            self.heal();
            proof {
                let k0 = choose|k: nat| healed_from(mid, self.traces@, k);
                assert(inserted_ok(ts, rec, mid) && healed_from(mid, self.traces@, k0));
                if no_mergeable_after_extend(ts, fe as int, rec.npts_spec()) {
                    assert forall|a: int, b: int|
                        0 <= a < mid.len() && 0 <= b < mid.len() && a != b implies !mergeable(
                        #[trigger] mid[a],
                        #[trigger] mid[b],
                    ) by {
                        assert(data_variant_eq(merged.data, ts[fe as int].data));
                        let na = ts[a].npts_spec() + if a == fe {
                            rec.npts_spec()
                        } else {
                            0
                        };
                        let nb = ts[b].npts_spec() + if b == fe {
                            rec.npts_spec()
                        } else {
                            0
                        };
                        assert(!mergeable_n(ts[a], na, ts[b], nb));
                        assert(mid[a].npts_spec() == na && mid[b].npts_spec() == nb);
                        assert(mergeable(mid[a], mid[b]) == mergeable_n(ts[a], na, ts[b], nb));
                    }
                    assert(no_mergeable(mid));
                }
            }
            Ok(())
        } else {
            proof {
                lemma_first_extendable_none(ts, tsr);
            }
            self.traces.push(t_new);
            proof {
                lemma_sum_push(ts, self.traces@.last());
                assert(self.traces@ == ts.push(tsr));
                assert forall|id: Seq<u8>|
                    #[trigger] sum_npts_id(self.traces@, id) == sum_npts_id(ts, id)
                        + if tsr.id_bytes() == id {
                        rec.npts_spec()
                    } else {
                        0
                    } by {
                    lemma_sum_id_push(ts, self.traces@.last(), id);
                }
                assert forall|k: int| 0 <= k < self.traces@.len() implies (
                #[trigger] self.traces@[k]).wf() by {
                    if k < ts.len() {
                        assert(self.traces@[k] == ts[k]);
                    }
                }
                assert(inserted_ok(ts, rec, self.traces@));
            }
            let ghost mid = self.traces@;
            self.heal();
            proof {
                let k0 = choose|k: nat| healed_from(mid, self.traces@, k);
                assert(inserted_ok(ts, rec, mid) && healed_from(mid, self.traces@, k0));
            }
            Ok(())
        }
    }

    /// Orders the traces by identity, then by start time. The sort is
    /// stable: the traces of any one key keep their relative order.
    pub fn sort(&mut self)
        requires
            old(self).wf(),
        ensures
            final(self).wf(),
            sorted_traces(final(self).traces@),
            final(self).traces@.to_multiset() == old(self).traces@.to_multiset(),
            final(self).traces@.len() == old(self).traces@.len(),
            sum_npts(final(self).traces@) == sum_npts(old(self).traces@),
            forall|id: Seq<u8>, s: i64|
                #[trigger] key_run(final(self).traces@, id, s) == key_run(
                    old(self).traces@,
                    id,
                    s,
                ),
    {
        broadcast use vstd::seq_lib::group_to_multiset_ensures;

        let n: usize = self.traces.len();
        if n <= 1 {
            return ;
        }
        let mut i: usize = 1;
        while i < n
            invariant
                1 <= i <= n,
                n == self.traces@.len(),
                self.wf(),
                sorted_traces(self.traces@.take(i as int)),
                self.traces@.to_multiset() == old(self).traces@.to_multiset(),
                sum_npts(self.traces@) == sum_npts(old(self).traces@),
                forall|id: Seq<u8>, s: i64|
                    #[trigger] key_run(self.traces@, id, s) == key_run(old(self).traces@, id, s),
            decreases n - i,
        {
            let ghost ts = self.traces@;
            let mut p: usize = 0;
            while p < i && trace_le_exec(&self.traces[p], &self.traces[i])
                invariant
                    p <= i < n,
                    n == self.traces@.len(),
                    self.traces@ == ts,
                    forall|q: int| 0 <= q < p ==> trace_le(
                        #[trigger] ts[q],
                        ts[i as int],
                    ),
                decreases i - p,
            {
                p = p + 1;
            }
            if p < i {
                let ghost x = ts[i as int];
                let moved = self.traces.remove(i);
                self.traces.insert(p, moved);
                proof {
                    broadcast use vstd::multiset::group_multiset_axioms;

                    let ts2 = self.traces@;
                    lemma_sum_remove(ts, i as int);
                    lemma_sum_insert(ts.remove(i as int), p as int, x);
                    // The elements jumped over are strictly greater than
                    // the moved trace, so none shares its key.
                    assert forall|q: int|
                        p <= q < i implies !((#[trigger] ts[q]).id_bytes() == ts[
                        i as int].id_bytes() && ts[q].start_time == ts[i as int].start_time) by {
                        if ts[q].id_bytes() == ts[i as int].id_bytes() && ts[q].start_time == ts[
                        i as int].start_time {
                            assert(trace_le(ts[q], ts[i as int]));
                            if q > p {
                                let tsi = ts.take(i as int);
                                assert(tsi[p as int] == ts[p as int] && tsi[q] == ts[q]);
                                assert(trace_le(ts[p as int], ts[q]));
                                lemma_trace_le_trans(ts[p as int], ts[q], ts[i as int]);
                            }
                            assert(false);
                        }
                    }
                    lemma_stable_step(ts, p as int, i as int);
                    assert(ts2 == ts.remove(i as int).insert(p as int, x));
                    assert forall|id: Seq<u8>, s: i64|
                        #[trigger] key_run(ts2, id, s) == key_run(old(self).traces@, id, s) by {
                        assert(key_run(ts2, id, s) == key_run(ts, id, s));
                    }
                    vstd::seq_lib::to_multiset_remove(ts, i as int);
                    vstd::seq_lib::to_multiset_insert(ts.remove(i as int), p as int, x);
                    assert(ts.contains(x)) by {
                        assert(ts[i as int] == x);
                    }
                    vstd::seq_lib::to_multiset_contains(ts, x);
                    assert(ts.to_multiset().count(x) > 0);
                    assert(ts2.to_multiset() =~= ts.to_multiset());
                    // The new prefix is the old one with `x` placed at `p`.
                    assert forall|k: int| 0 <= k < ts2.len() implies ts2[k] == (if k < p {
                        ts[k]
                    } else if k == p {
                        x
                    } else if k <= i {
                        ts[k - 1]
                    } else {
                        ts[k]
                    }) by {
                        assert(ts2 == ts.remove(i as int).insert(p as int, x));
                    }
                    assert forall|k: int| 0 <= k < ts2.len() implies (
                    #[trigger] ts2[k]).wf() by {
                    }
                    lemma_trace_le_total(ts[p as int], x);
                    assert forall|a: int, b: int| 0 <= a < b < i + 1 implies trace_le(
                        #[trigger] ts2[a],
                        #[trigger] ts2[b],
                    ) by {
                        let tsi = ts.take(i as int);
                        assert(forall|q: int| 0 <= q < i ==> #[trigger] tsi[q] == ts[q]);
                        if a < p && b < p {
                            assert(trace_le(tsi[a], tsi[b]));
                        } else if a < p && b == p {
                        } else if a < p && b > p {
                            assert(trace_le(tsi[a], tsi[b - 1]));
                        } else if a == p && b > p {
                            assert(trace_le(x, ts[p as int]));
                            if p < b - 1 {
                                assert(trace_le(tsi[p as int], tsi[b - 1]));
                                lemma_trace_le_trans(x, ts[p as int], ts[b - 1]);
                            }
                        } else {
                            assert(trace_le(tsi[a - 1], tsi[b - 1]));
                        }
                    }
                    assert(sorted_traces(ts2.take(i + 1)));
                }
            } else {
                proof {
                    assert(sorted_traces(ts.take(i + 1)));
                }
            }
            i = i + 1;
        }
        proof {
            assert(self.traces@.take(n as int) =~= self.traces@);
        }
    }
}

/// Compares two traces in the sort order.
fn trace_le_exec(t1: &Trace, t2: &Trace) -> (r: bool)
    ensures
        r == trace_le(*t1, *t2),
{
    let id1 = t1.id_bytes_vec();
    let id2 = t2.id_bytes_vec();
    if bytes_lt_exec(&id1, &id2) {
        true
    } else if bytes_eq_exec(&id1, &id2) {
        t1.start_time <= t2.start_time
    } else {
        false
    }
}

/// The availability list of identity `id` over a run of traces: the
/// `[start, end]` interval of each trace whose identity bytes are `id`,
/// in list order.
pub open spec fn avail_of(ts: Seq<Trace>, id: Seq<u8>) -> Seq<(i64, i64)>
    decreases ts.len(),
{
    if ts.len() == 0 {
        Seq::empty()
    } else {
        let front = avail_of(ts.drop_last(), id);
        if ts.last().id_bytes() == id {
            front.push((ts.last().start_time, ts.last().end_spec() as i64))
        } else {
            front
        }
    }
}

/// Whether the availability entry at `k` is the interval of some trace
/// with identity `id`.
pub open spec fn avail_witnessed(ts: Seq<Trace>, id: Seq<u8>, k: int) -> bool {
    exists|t: int|
        0 <= t < ts.len() && (#[trigger] ts[t]).id_bytes() == id && avail_of(ts, id)[k] == (
        ts[t].start_time, ts[t].end_spec() as i64)
}

/// Every availability interval is well formed, and over a sorted group
/// the interval starts never decrease.
pub proof fn lemma_avail_props(ts: Seq<Trace>, id: Seq<u8>)
    requires
        forall|i: int| 0 <= i < ts.len() ==> (#[trigger] ts[i]).wf(),
        sorted_traces(ts),
    ensures
        forall|k: int| 0 <= k < avail_of(ts, id).len() ==> (#[trigger] avail_of(ts, id)[k]).0
            <= avail_of(ts, id)[k].1,
        forall|k1: int, k2: int|
            0 <= k1 <= k2 < avail_of(ts, id).len() ==> (#[trigger] avail_of(ts, id)[k1]).0 <= (
            #[trigger] avail_of(ts, id)[k2]).0,
        forall|k: int| 0 <= k < avail_of(ts, id).len() ==> #[trigger] avail_witnessed(ts, id, k),
    decreases ts.len(),
{
    if ts.len() > 0 {
        let front = ts.drop_last();
        assert(forall|i: int| 0 <= i < front.len() ==> front[i] == #[trigger] ts[i]);
        lemma_avail_props(front, id);
        if ts.last().id_bytes() == id {
            let lt = ts.last();
            assert(lt.wf());
            assert((lt.npts_spec() - 1) * lt.rate_den() <= TRACE_SPAN_CAP) by (nonlinear_arith)
                requires
                    lt.npts_spec() >= 1,
                    lt.rate_den() >= 1,
                    lt.npts_spec() * lt.rate_den() <= TRACE_SPAN_CAP,
            ;
            lemma_offset_bounds(lt.npts_spec() - 1, lt.rate_num(), lt.rate_den());
            assert(lt.start_time <= lt.end_spec() as i64);
            assert forall|k: int| 0 <= k < avail_of(ts, id).len() implies (#[trigger] avail_of(
                ts,
                id,
            )[k]).0 <= avail_of(ts, id)[k].1 by {
                if k < avail_of(front, id).len() {
                    assert(avail_of(ts, id)[k] == avail_of(front, id)[k]);
                }
            }
            assert forall|k: int|
                0 <= k < avail_of(ts, id).len() implies #[trigger] avail_witnessed(ts, id, k) by {
                if k < avail_of(front, id).len() {
                    assert(avail_of(ts, id)[k] == avail_of(front, id)[k]);
                    assert(avail_witnessed(front, id, k));
                    let t = choose|t: int|
                        0 <= t < front.len() && (#[trigger] front[t]).id_bytes() == id
                            && avail_of(front, id)[k] == (
                        front[t].start_time,
                        front[t].end_spec() as i64,
                        );
                    assert(front[t] == ts[t]);
                    assert(0 <= t < ts.len() && ts[t].id_bytes() == id && avail_of(ts, id)[k] == (
                    ts[t].start_time, ts[t].end_spec() as i64));
                } else {
                    assert(avail_of(ts, id)[k] == (lt.start_time, lt.end_spec() as i64));
                    assert(ts[ts.len() - 1] == lt);
                }
            }
            assert forall|k1: int, k2: int|
                0 <= k1 <= k2 < avail_of(ts, id).len() implies (#[trigger] avail_of(
                ts,
                id,
            )[k1]).0 <= (#[trigger] avail_of(ts, id)[k2]).0 by {
                if k2 < avail_of(front, id).len() {
                    assert(avail_of(ts, id)[k1] == avail_of(front, id)[k1] && avail_of(ts, id)[k2]
                        == avail_of(front, id)[k2]);
                } else if k1 < avail_of(front, id).len() {
                    assert(avail_of(ts, id)[k1] == avail_of(front, id)[k1]);
                    assert(avail_witnessed(front, id, k1));
                    let t = choose|t: int|
                        0 <= t < front.len() && (#[trigger] front[t]).id_bytes() == id
                            && avail_of(front, id)[k1] == (
                        front[t].start_time,
                        front[t].end_spec() as i64,
                        );
                    assert(front[t] == ts[t]);
                    assert(trace_le(ts[t], lt));
                    assert(ts[t].id_bytes() == lt.id_bytes());
                    lemma_bytes_lt_asym_self(ts[t].id_bytes());
                }
            }
        } else {
            assert(avail_of(ts, id) == avail_of(front, id));
            assert forall|k: int|
                0 <= k < avail_of(ts, id).len() implies #[trigger] avail_witnessed(ts, id, k) by {
                assert(avail_witnessed(front, id, k));
                let t = choose|t: int|
                    0 <= t < front.len() && (#[trigger] front[t]).id_bytes() == id && avail_of(
                        front,
                        id,
                    )[k] == (front[t].start_time, front[t].end_spec() as i64);
                assert(front[t] == ts[t]);
                assert(0 <= t < ts.len() && ts[t].id_bytes() == id && avail_of(ts, id)[k] == (
                ts[t].start_time, ts[t].end_spec() as i64));
            }
        }
    }
}

/// A byte string is never strictly below itself.
proof fn lemma_bytes_lt_asym_self(a: Seq<u8>)
    ensures
        !bytes_lt(a, a),
    decreases a.len(),
{
    if a.len() > 0 {
        lemma_bytes_lt_asym_self(a.subrange(1, a.len() as int));
    }
}

impl TraceGroup {
    /// Sorts the group, then returns the `[start, end]` interval of
    /// each trace with identity `id`, in order of non-decreasing start.
    /// Nothing is returned when no trace has that identity: "no data"
    /// stays distinguishable from "no gaps".
    pub fn available(&mut self, id: &str) -> (r: Option<Vec<(i64, i64)>>)
        requires
            old(self).wf(),
        ensures
            final(self).wf(),
            sorted_traces(final(self).traces@),
            final(self).traces@.to_multiset() == old(self).traces@.to_multiset(),
            final(self).traces@.len() == old(self).traces@.len(),
            forall|id2: Seq<u8>, s: i64|
                #[trigger] key_run(final(self).traces@, id2, s) == key_run(
                    old(self).traces@,
                    id2,
                    s,
                ),
            r matches Some(v) ==> v@ == avail_of(final(self).traces@, id.spec_bytes())
                && v@.len() > 0,
            r matches Some(v) ==> (forall|k: int| 0 <= k < v@.len() ==> (#[trigger] v@[k]).0
                <= v@[k].1) && (forall|k1: int, k2: int|
                0 <= k1 <= k2 < v@.len() ==> (#[trigger] v@[k1]).0 <= (#[trigger] v@[k2]).0),
            r is None <==> avail_of(final(self).traces@, id.spec_bytes()).len() == 0,
    {
        self.sort();
        let idv: Vec<u8> = vstd::slice::slice_to_vec(id.as_bytes());
        let n: usize = self.traces.len();
        let mut v: Vec<(i64, i64)> = Vec::new();
        let mut k: usize = 0;
        while k < n
            invariant
                k <= n,
                n == self.traces@.len(),
                self.wf(),
                idv@ == id.spec_bytes(),
                v@ == avail_of(self.traces@.take(k as int), idv@),
            decreases n - k,
        {
            let t = &self.traces[k];
            let tid = t.id_bytes_vec();
            let ghost pre = self.traces@.take(k as int);
            proof {
                assert(self.traces@.take(k + 1).drop_last() =~= pre);
                assert(self.traces@.take(k + 1).last() == self.traces@[k as int]);
            }
            if bytes_eq_exec(&tid, &idv) {
                let s: i64 = t.start();
                let e: i64 = t.end();
                v.push((s, e));
            }
            k = k + 1;
        }
        proof {
            assert(self.traces@.take(n as int) =~= self.traces@);
            lemma_avail_props(self.traces@, idv@);
        }
        if v.len() == 0 {
            None
        } else {
            Some(v)
        }
    }

    /// Sorts the group, then returns the uncovered spans strictly
    /// between consecutive availability intervals of identity `id`:
    /// the pairs `[end_of_one, start_of_next]`. Nothing is returned
    /// when no trace has that identity; a single interval has no gaps.
    pub fn gaps(&mut self, id: &str) -> (r: Option<Vec<(i64, i64)>>)
        requires
            old(self).wf(),
        ensures
            final(self).wf(),
            sorted_traces(final(self).traces@),
            final(self).traces@.to_multiset() == old(self).traces@.to_multiset(),
            final(self).traces@.len() == old(self).traces@.len(),
            forall|id2: Seq<u8>, s: i64|
                #[trigger] key_run(final(self).traces@, id2, s) == key_run(
                    old(self).traces@,
                    id2,
                    s,
                ),
            r matches Some(v) ==> avail_of(final(self).traces@, id.spec_bytes()).len() > 0
                && v@.len() == avail_of(final(self).traces@, id.spec_bytes()).len() - 1 && (forall|
                i: int,
            |
                0 <= i < v@.len() ==> #[trigger] v@[i] == (
                    avail_of(final(self).traces@, id.spec_bytes())[i].1,
                    avail_of(final(self).traces@, id.spec_bytes())[i + 1].0,
                )),
            r is None <==> avail_of(final(self).traces@, id.spec_bytes()).len() == 0,
    {
        let avail: Vec<(i64, i64)> = match self.available(id) {
            Some(a) => a,
            None => {
                return None;
            },
        };
        let mut v: Vec<(i64, i64)> = Vec::new();
        let mut i: usize = 1;
        while i < avail.len()
            invariant
                1 <= i <= avail@.len() || avail@.len() == 0,
                v@.len() == i - 1,
                forall|t: int| 0 <= t < v@.len() ==> #[trigger] v@[t] == (
                    avail@[t].1,
                    avail@[t + 1].0,
                ),
            decreases avail@.len() - i,
        {
            v.push((avail[i - 1].1, avail[i].0));
            i = i + 1;
        }
        Some(v)
    }

    /// The earliest start time across all traces; nothing when the
    /// group is empty.
    pub fn tmin(&self) -> (r: Option<i64>)
        ensures
            r is None <==> self.traces@.len() == 0,
            r matches Some(m) ==> (exists|t: int|
                0 <= t < self.traces@.len() && (#[trigger] self.traces@[t]).start_time == m) && (
            forall|t: int|
                0 <= t < self.traces@.len() ==> m <= (#[trigger] self.traces@[t]).start_time),
    {
        if self.traces.len() == 0 {
            return None;
        }
        let mut m: i64 = self.traces[0].start_time;
        let mut i: usize = 1;
        while i < self.traces.len()
            invariant
                1 <= i <= self.traces@.len(),
                exists|t: int|
                    0 <= t < i && (#[trigger] self.traces@[t]).start_time == m,
                forall|t: int| 0 <= t < i ==> m <= (#[trigger] self.traces@[t]).start_time,
            decreases self.traces@.len() - i,
        {
            if self.traces[i].start_time < m {
                m = self.traces[i].start_time;
            }
            i = i + 1;
        }
        Some(m)
    }

    /// The latest end time across all traces; nothing when the group
    /// is empty.
    pub fn tmax(&self) -> (r: Option<i64>)
        requires
            self.wf(),
        ensures
            r is None <==> self.traces@.len() == 0,
            r matches Some(m) ==> (exists|t: int|
                0 <= t < self.traces@.len() && (#[trigger] self.traces@[t]).end_spec() == m) && (
            forall|t: int|
                0 <= t < self.traces@.len() ==> (#[trigger] self.traces@[t]).end_spec() <= m),
    {
        if self.traces.len() == 0 {
            return None;
        }
        let mut m: i64 = self.traces[0].end();
        let mut i: usize = 1;
        while i < self.traces.len()
            invariant
                1 <= i <= self.traces@.len(),
                self.wf(),
                exists|t: int| 0 <= t < i && (#[trigger] self.traces@[t]).end_spec() == m,
                forall|t: int| 0 <= t < i ==> (#[trigger] self.traces@[t]).end_spec() <= m,
            decreases self.traces@.len() - i,
        {
            let e: i64 = self.traces[i].end();
            if e > m {
                m = e;
            }
            i = i + 1;
        }
        Some(m)
    }

    /// The least integer sample across all traces: the pointwise fold
    /// of the per-trace minima. An empty group has none; a trace of
    /// non-integer samples is a type mismatch, as for a single trace.
    pub fn min(&self) -> (r: Result<i32, MsError>)
        requires
            self.wf(),
        ensures
            self.traces@.len() == 0 ==> r == Err::<i32, MsError>(MsError::EmptyData),
            r matches Ok(m) ==> (exists|t: int, j: int|
                0 <= t < self.traces@.len() && 0 <= j < int_samples(self.traces@[t]).len() && (
                #[trigger] int_samples(self.traces@[t])[j]) as int == m) && (forall|t: int, j: int|
                0 <= t < self.traces@.len() && 0 <= j < int_samples(self.traces@[t]).len() ==> m
                    as int <= (#[trigger] int_samples(self.traces@[t])[j]) as int),
            (self.traces@.len() > 0 && forall|t: int|
                0 <= t < self.traces@.len() ==> (#[trigger] self.traces@[t]).data is Int) ==> r
                is Ok,
    {
        if self.traces.len() == 0 {
            return Err(MsError::EmptyData);
        }
        let mut m: i32 = match self.traces[0].min() {
            Ok(x) => x,
            Err(e) => {
                return Err(e);
            },
        };
        proof {
            let s0 = int_samples(self.traces@[0]);
            let j = choose|j: int| 0 <= j < s0.len() && #[trigger] s0[j] as int == m as int;
            assert(int_samples(self.traces@[0])[j] as int == m as int);
        }
        let mut i: usize = 1;
        while i < self.traces.len()
            invariant
                1 <= i <= self.traces@.len(),
                self.wf(),
                exists|t: int, j: int|
                    0 <= t < i && 0 <= j < int_samples(self.traces@[t]).len() && (
                    #[trigger] int_samples(self.traces@[t])[j]) as int == m,
                forall|t: int, j: int|
                    0 <= t < i && 0 <= j < int_samples(self.traces@[t]).len() ==> m as int <= (
                    #[trigger] int_samples(self.traces@[t])[j]) as int,
            decreases self.traces@.len() - i,
        {
            let x: i32 = match self.traces[i].min() {
                Ok(x) => x,
                Err(e) => {
                    return Err(e);
                },
            };
            proof {
                let si = int_samples(self.traces@[i as int]);
                let j = choose|j: int| 0 <= j < si.len() && #[trigger] si[j] as int == x as int;
                assert(int_samples(self.traces@[i as int])[j] as int == x as int);
            }
            if x < m {
                m = x;
            }
            i = i + 1;
        }
        Ok(m)
    }

    /// The greatest integer sample across all traces: the pointwise
    /// fold of the per-trace maxima, refused in the same cases as
    /// `min`.
    pub fn max(&self) -> (r: Result<i32, MsError>)
        requires
            self.wf(),
        ensures
            self.traces@.len() == 0 ==> r == Err::<i32, MsError>(MsError::EmptyData),
            r matches Ok(m) ==> (exists|t: int, j: int|
                0 <= t < self.traces@.len() && 0 <= j < int_samples(self.traces@[t]).len() && (
                #[trigger] int_samples(self.traces@[t])[j]) as int == m) && (forall|t: int, j: int|
                0 <= t < self.traces@.len() && 0 <= j < int_samples(self.traces@[t]).len() ==> (
                #[trigger] int_samples(self.traces@[t])[j]) as int <= m as int),
            (self.traces@.len() > 0 && forall|t: int|
                0 <= t < self.traces@.len() ==> (#[trigger] self.traces@[t]).data is Int) ==> r
                is Ok,
    {
        if self.traces.len() == 0 {
            return Err(MsError::EmptyData);
        }
        let mut m: i32 = match self.traces[0].max() {
            Ok(x) => x,
            Err(e) => {
                return Err(e);
            },
        };
        proof {
            let s0 = int_samples(self.traces@[0]);
            let j = choose|j: int| 0 <= j < s0.len() && #[trigger] s0[j] as int == m as int;
            assert(int_samples(self.traces@[0])[j] as int == m as int);
        }
        let mut i: usize = 1;
        while i < self.traces.len()
            invariant
                1 <= i <= self.traces@.len(),
                self.wf(),
                exists|t: int, j: int|
                    0 <= t < i && 0 <= j < int_samples(self.traces@[t]).len() && (
                    #[trigger] int_samples(self.traces@[t])[j]) as int == m,
                forall|t: int, j: int|
                    0 <= t < i && 0 <= j < int_samples(self.traces@[t]).len() ==> (
                    #[trigger] int_samples(self.traces@[t])[j]) as int <= m as int,
            decreases self.traces@.len() - i,
        {
            let x: i32 = match self.traces[i].max() {
                Ok(x) => x,
                Err(e) => {
                    return Err(e);
                },
            };
            proof {
                let si = int_samples(self.traces@[i as int]);
                let j = choose|j: int| 0 <= j < si.len() && #[trigger] si[j] as int == x as int;
                assert(int_samples(self.traces@[i as int])[j] as int == x as int);
            }
            if x > m {
                m = x;
            }
            i = i + 1;
        }
        Ok(m)
    }
}

/// The integer samples of a trace; empty for other sample forms.
pub open spec fn int_samples(t: Trace) -> Seq<i32> {
    match t.data {
        Data::Int(v) => v@,
        _ => Seq::empty(),
    }
}

/// The smaller of two timestamps.
pub open spec fn min_i64(a: i64, b: i64) -> i64 {
    if a <= b {
        a
    } else {
        b
    }
}

/// The larger of two timestamps.
pub open spec fn max_i64(a: i64, b: i64) -> i64 {
    if a >= b {
        a
    } else {
        b
    }
}

/// The gaps between consecutive pairs of the first `n` availability
/// intervals that overlap the window `[w0, w1]`, each clipped to the
/// window.
pub open spec fn mid_gaps(avail: Seq<(i64, i64)>, w0: i64, w1: i64, n: int) -> Seq<(i64, i64)>
    decreases n,
{
    if n <= 1 {
        Seq::empty()
    } else {
        let front = mid_gaps(avail, w0, w1, n - 1);
        if w0 < avail[n - 1].0 && w1 > avail[n - 2].1 {
            front.push((max_i64(avail[n - 2].1, w0), min_i64(avail[n - 1].0, w1)))
        } else {
            front
        }
    }
}

/// The uncovered portions of the window `[w0, w1]` against an
/// availability list: a leading gap before the first interval, the
/// clipped gaps between consecutive intervals, and a trailing gap
/// after the last interval.
pub open spec fn window_gaps(avail: Seq<(i64, i64)>, w0: i64, w1: i64) -> Seq<(i64, i64)>
    recommends
        avail.len() >= 1,
{
    let lead: Seq<(i64, i64)> = if w0 < avail[0].0 {
        seq![(w0, min_i64(avail[0].0, w1))]
    } else {
        Seq::empty()
    };
    let trail: Seq<(i64, i64)> = if w1 > avail[avail.len() - 1].1 {
        seq![(max_i64(avail[avail.len() - 1].1, w0), w1)]
    } else {
        Seq::empty()
    };
    lead + mid_gaps(avail, w0, w1, avail.len() as int) + trail
}

/// Each clipped between-interval gap is well formed when the intervals
/// are well formed, non-overlapping and the window is well formed.
proof fn lemma_mid_gaps_wf(avail: Seq<(i64, i64)>, w0: i64, w1: i64, n: int)
    requires
        w0 <= w1,
        n <= avail.len(),
        forall|k: int| 0 <= k < avail.len() ==> (#[trigger] avail[k]).0 <= avail[k].1,
        forall|k: int| 0 <= k < avail.len() - 1 ==> (#[trigger] avail[k]).1 <= avail[k + 1].0,
    ensures
        forall|k: int|
            0 <= k < mid_gaps(avail, w0, w1, n).len() ==> (#[trigger] mid_gaps(
                avail,
                w0,
                w1,
                n,
            )[k]).0 <= mid_gaps(avail, w0, w1, n)[k].1,
    decreases n,
{
    if n > 1 {
        lemma_mid_gaps_wf(avail, w0, w1, n - 1);
        assert(avail[n - 2].1 <= avail[n - 1].0);
        assert forall|k: int| 0 <= k < mid_gaps(avail, w0, w1, n).len() implies (
        #[trigger] mid_gaps(avail, w0, w1, n)[k]).0 <= mid_gaps(avail, w0, w1, n)[k].1 by {
            if k < mid_gaps(avail, w0, w1, n - 1).len() {
                assert(mid_gaps(avail, w0, w1, n)[k] == mid_gaps(avail, w0, w1, n - 1)[k]);
            }
        }
    }
}

/// Law: the windowed-gap complement emits only well-formed intervals.
/// Over a well-formed window and a well-formed, non-overlapping
/// availability list, every emitted `[start, end]` has `start <= end`.
pub proof fn lemma_window_gaps_wf(avail: Seq<(i64, i64)>, w0: i64, w1: i64)
    requires
        avail.len() >= 1,
        w0 <= w1,
        forall|k: int| 0 <= k < avail.len() ==> (#[trigger] avail[k]).0 <= avail[k].1,
        forall|k: int| 0 <= k < avail.len() - 1 ==> (#[trigger] avail[k]).1 <= avail[k + 1].0,
    ensures
        forall|k: int|
            0 <= k < window_gaps(avail, w0, w1).len() ==> (#[trigger] window_gaps(
                avail,
                w0,
                w1,
            )[k]).0 <= window_gaps(avail, w0, w1)[k].1,
{
    lemma_mid_gaps_wf(avail, w0, w1, avail.len() as int);
    let lead: Seq<(i64, i64)> = if w0 < avail[0].0 {
        seq![(w0, min_i64(avail[0].0, w1))]
    } else {
        Seq::empty()
    };
    let mids = mid_gaps(avail, w0, w1, avail.len() as int);
    let trail: Seq<(i64, i64)> = if w1 > avail[avail.len() - 1].1 {
        seq![(max_i64(avail[avail.len() - 1].1, w0), w1)]
    } else {
        Seq::empty()
    };
    assert forall|k: int| 0 <= k < window_gaps(avail, w0, w1).len() implies (
    #[trigger] window_gaps(avail, w0, w1)[k]).0 <= window_gaps(avail, w0, w1)[k].1 by {
        assert(window_gaps(avail, w0, w1) == lead + mids + trail);
        if k < lead.len() {
            assert(window_gaps(avail, w0, w1)[k] == lead[0]);
        } else if k < lead.len() + mids.len() {
            assert(window_gaps(avail, w0, w1)[k] == mids[k - lead.len()]);
        } else {
            assert(window_gaps(avail, w0, w1)[k] == trail[0]);
        }
    }
}

impl TraceGroup {
    /// Sorts the group, then returns the uncovered portions of the
    /// window `[w0, w1]` against the availability of identity `id`: a
    /// leading gap before the first interval, each between-interval gap
    /// that overlaps the window clipped to it, and a trailing gap after
    /// the last interval. Nothing is returned when no trace has that
    /// identity: a channel without data reports no gap information
    /// rather than one gap spanning the whole window.
    pub fn gaps_in_window(&mut self, id: &str, w0: i64, w1: i64) -> (r: Option<Vec<(i64, i64)>>)
        requires
            old(self).wf(),
            w0 <= w1,
        ensures
            final(self).wf(),
            sorted_traces(final(self).traces@),
            final(self).traces@.to_multiset() == old(self).traces@.to_multiset(),
            final(self).traces@.len() == old(self).traces@.len(),
            forall|id2: Seq<u8>, s: i64|
                #[trigger] key_run(final(self).traces@, id2, s) == key_run(
                    old(self).traces@,
                    id2,
                    s,
                ),
            r matches Some(v) ==> avail_of(final(self).traces@, id.spec_bytes()).len() > 0 && v@
                == window_gaps(avail_of(final(self).traces@, id.spec_bytes()), w0, w1),
            r is None <==> avail_of(final(self).traces@, id.spec_bytes()).len() == 0,
    {
        let avail: Vec<(i64, i64)> = match self.available(id) {
            Some(a) => a,
            None => {
                return None;
            },
        };
        let n: usize = avail.len();
        let mut v: Vec<(i64, i64)> = Vec::new();
        if w0 < avail[0].0 {
            let hi: i64 = if avail[0].0 <= w1 {
                avail[0].0
            } else {
                w1
            };
            v.push((w0, hi));
        }
        let ghost lead = v@;
        let mut i: usize = 1;
        while i < n
            invariant
                1 <= i <= n,
                n == avail@.len(),
                v@ == lead + mid_gaps(avail@, w0, w1, i as int),
            decreases n - i,
        {
            let b: i64 = avail[i - 1].1;
            let e: i64 = avail[i].0;
            if w0 < e && w1 > b {
                let lo: i64 = if b >= w0 {
                    b
                } else {
                    w0
                };
                let hi: i64 = if e <= w1 {
                    e
                } else {
                    w1
                };
                v.push((lo, hi));
            }
            i = i + 1;
        }
        if w1 > avail[n - 1].1 {
            let lo: i64 = if avail[n - 1].1 >= w0 {
                avail[n - 1].1
            } else {
                w0
            };
            v.push((lo, w1));
        }
        proof {
            assert(v@ =~= window_gaps(avail@, w0, w1));
        }
        Some(v)
    }
}

} // verus!
