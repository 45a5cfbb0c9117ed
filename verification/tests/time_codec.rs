use miniseed::time::{decode, encode, BTime};
use miniseed::MsError;

fn bt(year: u16, day: u16, hour: u8, min: u8, sec: u8, fract: u16) -> BTime {
    BTime { year, day, hour, min, sec, unused: 0, fract }
}

#[test]
fn decode_epoch() {
    assert_eq!(decode(&bt(1970, 1, 0, 0, 0, 0)), Ok(0));
}

#[test]
fn decode_known_instant() {
    // 2016-10-30 (day 304 of a leap year) 18:02:58.2300
    let t = decode(&bt(2016, 304, 18, 2, 58, 2300)).unwrap();
    assert_eq!(t, 1_477_850_578_230_000);
}

#[test]
fn decode_before_epoch() {
    // One day before the epoch.
    let t = decode(&bt(1969, 365, 0, 0, 0, 0)).unwrap();
    assert_eq!(t, -86_400_000_000);
}

#[test]
fn decode_rejects_bad_day() {
    // 2015 is not a leap year: it has no day 366.
    assert_eq!(decode(&bt(2015, 366, 0, 0, 0, 0)), Err(MsError::MalformedHeader));
    assert!(decode(&bt(2016, 366, 0, 0, 0, 0)).is_ok());
    assert_eq!(decode(&bt(2016, 0, 0, 0, 0, 0)), Err(MsError::MalformedHeader));
}

#[test]
fn decode_rejects_century_non_leap() {
    // 1900 is divisible by 100 but not 400: not a leap year.
    assert_eq!(decode(&bt(1900, 366, 0, 0, 0, 0)), Err(MsError::MalformedHeader));
    // 2000 is divisible by 400: a leap year.
    assert!(decode(&bt(2000, 366, 0, 0, 0, 0)).is_ok());
}

#[test]
fn decode_rejects_leap_second() {
    // A second field of 60 has no distinct place on the continuous
    // timeline and is rejected.
    assert_eq!(decode(&bt(2016, 366, 23, 59, 60, 0)), Err(MsError::MalformedHeader));
}

#[test]
fn decode_rejects_out_of_range_fields() {
    assert_eq!(decode(&bt(2016, 1, 24, 0, 0, 0)), Err(MsError::MalformedHeader));
    assert_eq!(decode(&bt(2016, 1, 0, 60, 0, 0)), Err(MsError::MalformedHeader));
    assert_eq!(decode(&bt(2016, 1, 0, 0, 0, 10_000)), Err(MsError::MalformedHeader));
}

#[test]
fn encode_decode_round_trip() {
    // encode(decode(t)) == t for valid field tuples.
    let cases = [
        bt(1970, 1, 0, 0, 0, 0),
        bt(2016, 304, 18, 2, 58, 2300),
        bt(1969, 365, 23, 59, 59, 9999),
        bt(2000, 60, 12, 30, 30, 1),
        bt(1900, 365, 6, 7, 8, 909),
        bt(1, 1, 0, 0, 0, 0),
        bt(9999, 365, 23, 59, 59, 9999),
    ];
    for b in cases {
        let t = decode(&b).unwrap();
        let b2 = encode(t).unwrap();
        assert_eq!(b2, b);
    }
}

#[test]
fn encode_truncates_sub_unit_microseconds() {
    let t = decode(&bt(2016, 304, 18, 2, 58, 2300)).unwrap();
    // 99 microseconds later is still within the same fractional unit.
    let b = encode(t + 99).unwrap();
    assert_eq!(b, bt(2016, 304, 18, 2, 58, 2300));
    let b2 = encode(t + 100).unwrap();
    assert_eq!(b2, bt(2016, 304, 18, 2, 58, 2301));
}

#[test]
fn encode_rejects_unrepresentable() {
    assert!(encode(i64::MIN).is_err());
    assert!(encode(i64::MAX).is_err());
}

#[test]
fn btime_zero_is_placeholder() {
    let z = BTime::zero();
    assert_eq!(z.year, 0);
    assert_eq!(z.day, 0);
    assert_eq!(decode(&z), Err(MsError::MalformedHeader));
}
