use miniseed::{ms_record, Data, EncodingKind, MsError, Trace, TraceGroup};

/// A record for one channel: 1 Hz, `n` integer samples, starting at
/// `start` microseconds since the epoch.
fn rec_at(channel: &str, start: i64, n: usize, rate_factor: i16) -> ms_record {
    ms_record {
        sequence_number: 1,
        data_quality: b'D',
        network: b"PN".to_vec(),
        station: b"PPNAF".to_vec(),
        location: b"00".to_vec(),
        channel: channel.as_bytes().to_vec(),
        start_time: start,
        rate_factor,
        rate_mult: 1,
        encoding: EncodingKind::Int32,
        word_order: 1,
        reclen_exp: 9,
        data_offset: 64,
        activity_flags: 0,
        io_flags: 0,
        quality_flags: 0,
        time_correction: 0,
        data: Data::Int(vec![7; n]),
    }
}

const SEC: i64 = 1_000_000;

#[test]
fn merge_adjacent_records_into_one_trace() {
    // Two records of the same identity and rate, the second starting
    // exactly one sample period after the first's last sample, form one
    // trace of the combined count.
    let mut g = TraceGroup::new();
    g.add_record(rec_at("HHZ", 0, 100, 100)).unwrap();
    g.add_record(rec_at("HHZ", 1_000_000, 100, 100)).unwrap();
    assert_eq!(g.numtraces(), 1);
    assert_eq!(g.get_trace(0).npts(), 200);
    // A third record a ten-sample-period gap later stays a trace of its
    // own: no illegitimate merge across the gap.
    g.add_record(rec_at("HHZ", 2_000_000 + 100_000, 100, 100)).unwrap();
    assert_eq!(g.numtraces(), 2);
}

#[test]
fn no_merge_across_channels() {
    let mut g = TraceGroup::new();
    g.add_record(rec_at("HHZ", 0, 10, 100)).unwrap();
    g.add_record(rec_at("HHN", 100_000, 10, 100)).unwrap();
    assert_eq!(g.numtraces(), 2);
}

#[test]
fn no_merge_across_rates() {
    let mut g = TraceGroup::new();
    g.add_record(rec_at("HHZ", 0, 100, 100)).unwrap();
    g.add_record(rec_at("HHZ", 1_000_000, 1, 50)).unwrap();
    assert_eq!(g.numtraces(), 2);
}

#[test]
fn out_of_order_arrival_heals() {
    // The later record arrives first; healing joins them in
    // chronological order all the same.
    let mut g = TraceGroup::new();
    g.add_record(rec_at("HHZ", 1_000_000, 100, 100)).unwrap();
    g.add_record(rec_at("HHZ", 0, 100, 100)).unwrap();
    assert_eq!(g.numtraces(), 1);
    let t = g.get_trace(0);
    assert_eq!(t.start(), 0);
    assert_eq!(t.npts(), 200);
}

#[test]
fn heal_is_idempotent() {
    let mut g = TraceGroup::new();
    g.add_record(rec_at("HHZ", 0, 100, 100)).unwrap();
    g.add_record(rec_at("HHZ", 5 * SEC, 100, 100)).unwrap();
    g.add_record(rec_at("HHN", 0, 100, 100)).unwrap();
    g.heal();
    let before: Vec<(i64, usize)> =
        (0..g.numtraces()).map(|i| (g.get_trace(i).start(), g.get_trace(i).npts())).collect();
    g.heal();
    let after: Vec<(i64, usize)> =
        (0..g.numtraces()).map(|i| (g.get_trace(i).start(), g.get_trace(i).npts())).collect();
    assert_eq!(before, after);
}

#[test]
fn empty_record_is_reported() {
    let mut g = TraceGroup::new();
    assert!(matches!(g.add_record(rec_at("HHZ", 0, 0, 100)), Err(MsError::EmptyData)));
    assert_eq!(g.numtraces(), 0);
}

#[test]
fn available_sorted_intervals() {
    // After sorting, availability intervals for one identity come with
    // non-decreasing starts and each start at or before its end.
    let mut g = TraceGroup::new();
    g.add_record(rec_at("HHZ", 20 * SEC, 11, 1)).unwrap();
    g.add_record(rec_at("HHZ", 0, 11, 1)).unwrap();
    g.add_record(rec_at("HHN", 5 * SEC, 11, 1)).unwrap();
    let avail = g.available("PN_PPNAF_00_HHZ").unwrap();
    assert_eq!(avail.len(), 2);
    for w in avail.windows(2) {
        assert!(w[0].0 <= w[1].0);
    }
    for iv in &avail {
        assert!(iv.0 <= iv.1);
    }
    assert_eq!(avail[0], (0, 10 * SEC));
    assert_eq!(avail[1], (20 * SEC, 30 * SEC));
}

#[test]
fn available_unknown_identity_is_none() {
    let mut g = TraceGroup::new();
    g.add_record(rec_at("HHZ", 0, 11, 1)).unwrap();
    assert!(g.available("XX_NOPE_00_HHZ").is_none());
    assert!(g.gaps("XX_NOPE_00_HHZ").is_none());
    assert!(g.gaps_in_window("XX_NOPE_00_HHZ", 0, SEC).is_none());
}

#[test]
fn gaps_between_intervals() {
    // Availability [[0,10],[20,30]] (seconds) leaves exactly the gap
    // [10,20].
    let mut g = TraceGroup::new();
    g.add_record(rec_at("HHZ", 0, 11, 1)).unwrap();
    g.add_record(rec_at("HHZ", 20 * SEC, 11, 1)).unwrap();
    let gaps = g.gaps("PN_PPNAF_00_HHZ").unwrap();
    assert_eq!(gaps, vec![(10 * SEC, 20 * SEC)]);
}

#[test]
fn gaps_single_interval_is_empty() {
    let mut g = TraceGroup::new();
    g.add_record(rec_at("HHZ", 0, 11, 1)).unwrap();
    assert_eq!(g.gaps("PN_PPNAF_00_HHZ").unwrap(), vec![]);
}

#[test]
fn windowed_gaps() {
    // Availability [[0,10],[20,30]] and window [-5,25]: a leading gap
    // [-5,0] and the clipped middle gap [10,20]. Window [25,40]: only
    // the trailing gap [30,40].
    let mut g = TraceGroup::new();
    g.add_record(rec_at("HHZ", 0, 11, 1)).unwrap();
    g.add_record(rec_at("HHZ", 20 * SEC, 11, 1)).unwrap();
    let w1 = g.gaps_in_window("PN_PPNAF_00_HHZ", -5 * SEC, 25 * SEC).unwrap();
    assert_eq!(w1, vec![(-5 * SEC, 0), (10 * SEC, 20 * SEC)]);
    let w2 = g.gaps_in_window("PN_PPNAF_00_HHZ", 25 * SEC, 40 * SEC).unwrap();
    assert_eq!(w2, vec![(30 * SEC, 40 * SEC)]);
}

#[test]
fn window_fully_covered_has_no_gaps() {
    let mut g = TraceGroup::new();
    g.add_record(rec_at("HHZ", 0, 31, 1)).unwrap();
    let w = g.gaps_in_window("PN_PPNAF_00_HHZ", 5 * SEC, 25 * SEC).unwrap();
    assert_eq!(w, vec![]);
}

#[test]
fn group_statistics() {
    let mut g = TraceGroup::new();
    let mut r1 = rec_at("HHZ", 0, 3, 1);
    r1.data = Data::Int(vec![5, -2, 9]);
    let mut r2 = rec_at("HHN", 10 * SEC, 3, 1);
    r2.data = Data::Int(vec![1, 30, -40]);
    g.add_record(r1).unwrap();
    g.add_record(r2).unwrap();
    assert_eq!(g.min(), Ok(-40));
    assert_eq!(g.max(), Ok(30));
    assert_eq!(g.tmin(), Some(0));
    assert_eq!(g.tmax(), Some(12 * SEC));
}

#[test]
fn empty_group_statistics_fail() {
    let g = TraceGroup::new();
    assert_eq!(g.min(), Err(MsError::EmptyData));
    assert_eq!(g.max(), Err(MsError::EmptyData));
    assert_eq!(g.tmin(), None);
    assert_eq!(g.tmax(), None);
}

#[test]
fn trace_extend_appends_compatible_record() {
    let mut t = Trace::from_record(rec_at("HHZ", 0, 100, 100));
    t.extend(rec_at("HHZ", 1_000_000, 50, 100)).unwrap();
    assert_eq!(t.npts(), 150);
    assert_eq!(t.start(), 0);
    assert_eq!(t.end1(), 1_500_000);
    assert_eq!(t.id(), "PN_PPNAF_00_HHZ");
}

#[test]
fn trace_extend_rejects_incompatible() {
    let mut t = Trace::from_record(rec_at("HHZ", 0, 100, 100));
    // Different identity.
    assert!(matches!(t.extend(rec_at("HHN", 1_000_000, 50, 100)), Err(
        MsError::IncompatibleMerge
    )));
    // A gap beyond tolerance.
    assert!(matches!(t.extend(rec_at("HHZ", 1_100_000, 50, 100)), Err(
        MsError::IncompatibleMerge
    )));
    // Different rate.
    assert!(matches!(t.extend(rec_at("HHZ", 1_000_000, 50, 50)), Err(MsError::IncompatibleMerge)));
    assert_eq!(t.npts(), 100);
}

#[test]
fn trace_min_max() {
    let mut r = rec_at("HHZ", 0, 3, 1);
    r.data = Data::Int(vec![4, -1, 2]);
    let t = Trace::from_record(r);
    assert_eq!(t.min(), Ok(-1));
    assert_eq!(t.max(), Ok(4));
    assert_eq!(t.end(), 2 * SEC);
}

#[test]
fn sort_is_stable_for_equal_keys() {
    // Two traces of the same identity and start time (overlapping
    // duplicates, never merged) keep their insertion order through a
    // sort.
    let mut g = TraceGroup::new();
    let mut r1 = rec_at("HHZ", 0, 10, 1);
    r1.data = Data::Int(vec![1; 10]);
    let mut r2 = rec_at("HHZ", 0, 10, 1);
    r2.data = Data::Int(vec![2; 10]);
    g.add_record(r1).unwrap();
    g.add_record(r2).unwrap();
    assert_eq!(g.numtraces(), 2);
    g.sort();
    assert_eq!(g.get_trace(0).min(), Ok(1));
    assert_eq!(g.get_trace(1).min(), Ok(2));
}

#[test]
fn add_record_extends_in_place() {
    // The record's samples extend the first compatible trace, at its
    // list position; later traces stay where they were.
    let mut g = TraceGroup::new();
    g.add_record(rec_at("HHZ", 0, 100, 100)).unwrap();
    g.add_record(rec_at("HHN", 0, 50, 100)).unwrap();
    g.add_record(rec_at("HHZ", 1_000_000, 100, 100)).unwrap();
    assert_eq!(g.numtraces(), 2);
    assert_eq!(g.get_trace(0).npts(), 200);
    assert_eq!(g.get_trace(1).npts(), 50);
}
