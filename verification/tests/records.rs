use miniseed::{ms_record, Data, EncodingKind, MsError};
use miniseed::stream::{read_records, write_record};

fn push_be16(v: &mut Vec<u8>, x: u16) {
    v.push((x / 256) as u8);
    v.push((x % 256) as u8);
}

fn push_field(v: &mut Vec<u8>, s: &str, width: usize) {
    let b = s.as_bytes();
    for i in 0..width {
        v.push(if i < b.len() { b[i] } else { 32 });
    }
}

/// A canonical 512-byte frame: sequence number 1, quality D, identity
/// PN_PPNAF_00_HHZ, start 2016-10-30 18:02:58.2300, 100 Hz, big-endian
/// 32-bit integer samples counting up from `base`.
fn sample_frame(nsamples: u16, base: i32) -> Vec<u8> {
    let mut v = Vec::new();
    for b in b"000001" {
        v.push(*b);
    }
    v.push(b'D');
    v.push(32);
    push_field(&mut v, "PPNAF", 5);
    push_field(&mut v, "00", 2);
    push_field(&mut v, "HHZ", 3);
    push_field(&mut v, "PN", 2);
    push_be16(&mut v, 2016);
    push_be16(&mut v, 304);
    v.push(18);
    v.push(2);
    v.push(58);
    v.push(0);
    push_be16(&mut v, 2300);
    push_be16(&mut v, nsamples);
    push_be16(&mut v, 100); // rate factor: 100 samples per second
    push_be16(&mut v, 1); // rate multiplier
    v.push(0);
    v.push(0);
    v.push(0);
    v.push(1); // one descriptor block
    for _ in 0..4 {
        v.push(0); // time correction
    }
    push_be16(&mut v, 64); // data offset
    push_be16(&mut v, 48); // first block offset
    push_be16(&mut v, 1000); // descriptor block
    push_be16(&mut v, 0);
    v.push(3); // 32-bit integer encoding
    v.push(1); // big endian
    let mut exp: u8 = 9;
    while (1usize << exp) < 64 + 4 * nsamples as usize {
        exp += 1;
    }
    v.push(exp); // record length as a power of two
    v.push(0);
    while v.len() < 64 {
        v.push(0);
    }
    for i in 0..nsamples {
        let x = base + i as i32;
        let bits = x as u32;
        v.push((bits >> 24) as u8);
        v.push((bits >> 16) as u8);
        v.push((bits >> 8) as u8);
        v.push(bits as u8);
    }
    while v.len() < (1usize << exp) {
        v.push(0);
    }
    v
}

#[test]
fn decode_sample_frame() {
    let rec = ms_record::decode(&sample_frame(100, 5)).unwrap();
    assert_eq!(rec.sequence_number, 1);
    assert_eq!(rec.data_quality, b'D');
    assert_eq!(rec.id(), "PN_PPNAF_00_HHZ");
    assert_eq!(rec.npts(), 100);
    assert_eq!(rec.data_type(), 'i');
    assert_eq!(rec.dtype(), 'i');
    assert_eq!(rec.encoding, EncodingKind::Int32);
    assert_eq!(rec.start(), 1_477_850_578_230_000);
    let data = rec.data_i32().unwrap();
    assert_eq!(data[0], 5);
    assert_eq!(data[99], 104);
}

#[test]
fn parse_matches_decode() {
    let frame = sample_frame(10, 0);
    let a = ms_record::parse(&frame).unwrap();
    let b = ms_record::decode(&frame).unwrap();
    assert_eq!(a.npts(), b.npts());
    assert_eq!(a.start(), b.start());
    assert_eq!(a.id(), b.id());
}

#[test]
fn end_times_are_exact() {
    // 206 samples at 100 Hz: the last sample is 205 periods after the
    // start, and the next sample slot one more period after that.
    let rec = ms_record::decode(&sample_frame(206, 0)).unwrap();
    let start = rec.start();
    assert_eq!(rec.end(), start + 2_050_000);
    assert_eq!(rec.end1(), start + 2_060_000);
}

#[test]
fn min_max_over_int_samples() {
    let rec = ms_record::decode(&sample_frame(50, -7)).unwrap();
    assert_eq!(rec.min(), Ok(-7));
    assert_eq!(rec.max(), Ok(42));
}

#[test]
fn typed_accessors_mismatch() {
    // A 64-bit-float accessor on a 32-bit-integer record fails with a
    // type mismatch, as does the 32-bit-float accessor.
    let rec = ms_record::decode(&sample_frame(10, 0)).unwrap();
    assert!(matches!(rec.data_f64(), Err(MsError::TypeMismatch)));
    assert!(matches!(rec.data_f32(), Err(MsError::TypeMismatch)));
    assert!(rec.data_i32().is_ok());
}

#[test]
fn min_on_ascii_fails() {
    let mut frame = sample_frame(4, 0);
    frame[52] = 0; // text encoding
    frame[64] = b'L';
    frame[65] = b'O';
    frame[66] = b'G';
    frame[67] = b'\n';
    let rec = ms_record::decode(&frame).unwrap();
    assert_eq!(rec.data_type(), 'a');
    assert_eq!(rec.min(), Err(MsError::TypeMismatch));
    assert_eq!(rec.max(), Err(MsError::TypeMismatch));
    assert_eq!(rec.as_string(), Some(String::from("LOG\n")));
}

#[test]
fn as_string_on_int_data() {
    let rec = ms_record::decode(&sample_frame(10, 0)).unwrap();
    assert_eq!(rec.as_string(), None);
}

#[test]
fn wire_round_trip_is_byte_identical() {
    // Decoding then re-encoding a canonical frame reproduces it byte
    // for byte.
    let frame = sample_frame(100, -3);
    let rec = ms_record::decode(&frame).unwrap();
    let out = rec.encode().unwrap();
    assert_eq!(out, frame);
}

#[test]
fn record_round_trip_preserves_fields() {
    let frame = sample_frame(25, 11);
    let rec = ms_record::decode(&frame).unwrap();
    let rec2 = ms_record::decode(&rec.encode().unwrap()).unwrap();
    assert_eq!(rec2.sequence_number, rec.sequence_number);
    assert_eq!(rec2.id(), rec.id());
    assert_eq!(rec2.start(), rec.start());
    assert_eq!(rec2.npts(), rec.npts());
    assert_eq!(rec2.data_i32().unwrap(), rec.data_i32().unwrap());
}

#[test]
fn truncated_frame_is_malformed() {
    let frame = sample_frame(10, 0);
    assert!(matches!(ms_record::decode(&frame[..40]), Err(MsError::MalformedHeader)));
    assert!(matches!(ms_record::decode(&frame[..100]), Err(MsError::MalformedHeader)));
}

#[test]
fn unknown_encoding_tag_is_unsupported() {
    let mut frame = sample_frame(10, 0);
    frame[52] = 77;
    assert!(matches!(ms_record::decode(&frame), Err(MsError::UnsupportedEncoding)));
}

#[test]
fn compressed_needs_external_decoder() {
    let mut frame = sample_frame(10, 0);
    frame[52] = 11;
    assert!(matches!(ms_record::decode(&frame), Err(MsError::UnsupportedEncoding)));
    // The external decompressor's buffer is accepted when its count
    // agrees with the header.
    let rec = ms_record::decode_with_samples(&frame, Data::Int(vec![1; 10])).unwrap();
    assert_eq!(rec.npts(), 10);
    assert_eq!(rec.encoding, EncodingKind::Compressed { tag: 11 });
    // A count mismatch is a decompression failure, never corrected.
    assert!(matches!(
        ms_record::decode_with_samples(&frame, Data::Int(vec![1; 9])),
        Err(MsError::DecompressionFailure)
    ));
}

#[test]
fn zero_rate_with_samples_is_invalid() {
    let mut frame = sample_frame(10, 0);
    frame[32] = 0;
    frame[33] = 0; // rate factor 0
    assert!(matches!(ms_record::decode(&frame), Err(MsError::InvalidSampleRate)));
}

#[test]
fn bad_time_fields_are_malformed() {
    let mut frame = sample_frame(10, 0);
    frame[24] = 24; // hour out of range
    assert!(matches!(ms_record::decode(&frame), Err(MsError::MalformedHeader)));
}

#[test]
fn reciprocal_rate_convention() {
    // A negative factor stores a period: factor -10 means one sample
    // every ten seconds.
    let mut frame = sample_frame(2, 0);
    let f: i16 = -10;
    let bits = f as u16;
    frame[32] = (bits >> 8) as u8;
    frame[33] = bits as u8;
    frame[34] = 0;
    frame[35] = 1;
    let rec = ms_record::decode(&frame).unwrap();
    // Two samples, ten seconds apart.
    assert_eq!(rec.end(), rec.start() + 10_000_000);
}

#[test]
fn stream_reads_consecutive_frames() {
    let mut buf = sample_frame(10, 0);
    buf.extend_from_slice(&sample_frame(20, 100));
    let (recs, err) = read_records(&buf);
    assert_eq!(recs.len(), 2);
    assert!(err.is_none());
    assert_eq!(recs[0].npts(), 10);
    assert_eq!(recs[1].npts(), 20);
}

#[test]
fn stream_stops_at_first_bad_frame() {
    let mut buf = sample_frame(10, 0);
    let mut bad = sample_frame(5, 0);
    bad[0] = b'x'; // corrupt the sequence number
    buf.extend_from_slice(&bad);
    buf.extend_from_slice(&sample_frame(7, 0));
    let (recs, err) = read_records(&buf);
    assert_eq!(recs.len(), 1);
    assert_eq!(err, Some(MsError::MalformedHeader));
}

#[test]
fn stream_writer_round_trips() {
    let rec = ms_record::decode(&sample_frame(30, 2)).unwrap();
    let mut sink: Vec<u8> = Vec::new();
    write_record(&mut sink, &rec).unwrap();
    write_record(&mut sink, &rec).unwrap();
    assert_eq!(sink.len(), 1024);
    let (recs, err) = read_records(&sink);
    assert!(err.is_none());
    assert_eq!(recs.len(), 2);
    assert_eq!(recs[0].npts(), 30);
    assert_eq!(recs[1].start(), rec.start());
}

#[test]
fn largest_sample_count_round_trips() {
    // The wire count field is 16 bits; the largest record holds 65535
    // samples and needs a 512 KiB frame.
    let frame = sample_frame(65_535, -32_768);
    let rec = ms_record::decode(&frame).unwrap();
    assert_eq!(rec.npts(), 65_535);
    assert_eq!(rec.min(), Ok(-32_768));
    assert_eq!(rec.max(), Ok(32_766));
    assert_eq!(rec.encode().unwrap(), frame);
}

#[test]
fn sample_times_are_uniform() {
    let rec = ms_record::decode(&sample_frame(206, 0)).unwrap();
    let start = rec.start();
    assert_eq!(rec.sample_time(0), start);
    assert_eq!(rec.sample_time(1), start + 10_000);
    assert_eq!(rec.sample_time(205), rec.end());
}
