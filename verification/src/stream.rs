//! Sequential decoding and re-encoding of back-to-back record frames
//! held in one buffer. The byte source and sink themselves live with
//! the caller; this module owns the framing.

use vstd::prelude::*;
use crate::error::MsError;
use crate::record::{ms_record, decode_err, decode_fields_ok, reclen_of_exp, append_bytes};

verus! {

broadcast use vstd::slice::group_slice_axioms;

/// Decodes the record framed at `pos` and returns it with the position
/// of the frame that follows it.
pub fn next_record(buf: &[u8], pos: usize) -> (r: Result<(ms_record, usize), MsError>)
    requires
        pos <= buf@.len(),
    ensures
        r matches Ok(p) ==> p.0.wf() && decode_err(
            buf@.subrange(pos as int, buf@.len() as int),
        ) is None && decode_fields_ok(p.0, buf@.subrange(pos as int, buf@.len() as int)) && p.1
            == pos + p.0.reclen_spec() && pos < p.1 <= buf@.len(),
        r matches Err(e) ==> decode_err(buf@.subrange(pos as int, buf@.len() as int)) == Some(e),
{
    let sub: &[u8] = vstd::slice::slice_subrange(buf, pos, buf.len());
    match ms_record::decode(sub) {
        Ok(rec) => {
            let reclen: u32 = reclen_of_exp(rec.reclen_exp);
            Ok((rec, pos + reclen as usize))
        },
        Err(e) => Err(e),
    }
}

/// The position of the frame that yielded record `k` of a decoded
/// run: the frame lengths of all earlier records, summed.
pub open spec fn frame_pos(recs: Seq<ms_record>, k: int) -> int
    decreases k,
{
    if k <= 0 {
        0
    } else {
        frame_pos(recs, k - 1) + recs[k - 1].reclen_spec()
    }
}

/// Frame positions read only the records before them, so appending a
/// record moves no earlier position.
proof fn lemma_frame_pos_push(recs: Seq<ms_record>, rec: ms_record, k: int)
    requires
        0 <= k <= recs.len(),
    ensures
        frame_pos(recs.push(rec), k) == frame_pos(recs, k),
    decreases k,
{
    if k > 0 {
        lemma_frame_pos_push(recs, rec, k - 1);
        assert(recs.push(rec)[k - 1] == recs[k - 1]);
    }
}

/// Whether record `k` of a decoded run is the one framed at its
/// position: the frame there decodes cleanly and every field of the
/// record is read from it.
pub open spec fn frame_decoded(buf: Seq<u8>, recs: Seq<ms_record>, k: int) -> bool {
    &&& recs[k].wf()
    &&& 0 <= frame_pos(recs, k) <= buf.len()
    &&& decode_err(buf.subrange(frame_pos(recs, k), buf.len() as int)) is None
    &&& decode_fields_ok(recs[k], buf.subrange(frame_pos(recs, k), buf.len() as int))
}

/// Decodes back-to-back records from the front of `buf`: a lazy,
/// forward-only walk that ends at the buffer's end or at the first
/// frame that fails to decode. The error, if any, is returned beside
/// the records read before it; decoding never resynchronizes past a
/// malformed frame.
///
/// Record `k` is decoded from the frame at the sum of the earlier
/// records' frame lengths; with an error the walk stopped at a frame
/// reporting exactly that error, and without one it consumed the
/// buffer to its end.
pub fn read_records(buf: &[u8]) -> (r: (Vec<ms_record>, Option<MsError>))
    ensures
        forall|k: int| 0 <= k < r.0@.len() ==> #[trigger] frame_decoded(buf@, r.0@, k),
        r.1 matches Some(e) ==> frame_pos(r.0@, r.0@.len() as int) < buf@.len() && decode_err(
            buf@.subrange(frame_pos(r.0@, r.0@.len() as int), buf@.len() as int),
        ) == Some(e),
        r.1 is None ==> frame_pos(r.0@, r.0@.len() as int) == buf@.len(),
{
    let mut out: Vec<ms_record> = Vec::new();
    let mut pos: usize = 0;
    while pos < buf.len()
        invariant
            pos <= buf@.len(),
            pos == frame_pos(out@, out@.len() as int),
            forall|k: int| 0 <= k < out@.len() ==> #[trigger] frame_decoded(buf@, out@, k),
        decreases buf@.len() - pos,
    {
        match next_record(buf, pos) {
            Ok((rec, nxt)) => {
                let ghost prev = out@;
                out.push(rec);
                proof {
                    assert forall|k: int| 0 <= k <= prev.len() implies frame_pos(out@, k)
                        == frame_pos(prev, k) by {
                        lemma_frame_pos_push(prev, rec, k);
                    }
                    assert forall|k: int| 0 <= k < out@.len() implies #[trigger] frame_decoded(
                        buf@,
                        out@,
                        k,
                    ) by {
                        if k < prev.len() {
                            assert(frame_decoded(buf@, prev, k));
                            assert(out@[k] == prev[k]);
                        } else {
                            assert(out@[k] == rec);
                        }
                    }
                }
                pos = nxt;
            },
            Err(e) => {
                return (out, Some(e));
            },
        }
    }
    (out, None)
}

/// Appends a record's wire frame to a byte sink. Only records of the
/// natively decodable encodings can be written, as for `encode`.
pub fn write_record(out: &mut Vec<u8>, rec: &ms_record) -> (r: Result<(), MsError>)
    requires
        rec.wf(),
    ensures
        r is Ok <==> !(rec.encoding is Compressed),
        r matches Err(e) ==> e == MsError::UnsupportedEncoding && final(out)@ == old(out)@,
        r is Ok ==> final(out)@.len() == old(out)@.len() + rec.reclen_spec() && decode_err(
            final(out)@.subrange(old(out)@.len() as int, final(out)@.len() as int),
        ) is None && decode_fields_ok(
            *rec,
            final(out)@.subrange(old(out)@.len() as int, final(out)@.len() as int),
        ),
{
    match rec.encode() {
        Ok(frame) => {
            append_bytes(out, &frame);
            proof {
                assert(out@.subrange(old(out)@.len() as int, out@.len() as int) =~= frame@);
            }
            Ok(())
        },
        Err(e) => Err(e),
    }
}

} // verus!
