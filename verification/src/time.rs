//! The time codec: conversion between the compact on-disk time encoding
//! (year, day-of-year, hour, minute, second, tenths of milliseconds) and
//! a continuous timestamp counted in microseconds since the 1970 epoch.
//!
//! The codec is pure and stateless. Timestamps are signed 64-bit
//! microsecond counts, totally ordered, closed under addition of signed
//! microsecond durations for every value the on-disk encoding can carry.

use vstd::prelude::*;
use vstd::arithmetic::div_mod::{
    lemma_fundamental_div_mod, lemma_fundamental_div_mod_converse,
    lemma_div_is_ordered, lemma_div_is_ordered_by_denominator, lemma_div_nonincreasing,
    lemma_div_pos_is_pos, lemma_mod_multiples_basic,
};
use crate::error::MsError;

verus! {

/// Microseconds in one second.
pub const US_PER_SECOND: i64 = 1_000_000;

/// Microseconds in one minute.
pub const US_PER_MINUTE: i64 = 60_000_000;

/// Microseconds in one hour.
pub const US_PER_HOUR: i64 = 3_600_000_000;

/// Microseconds in one day.
pub const US_PER_DAY: i64 = 86_400_000_000;

/// Microseconds in one unit of the fractional-second field
/// (a tenth of a millisecond).
pub const FRACT_UNIT_US: i64 = 100;

/// Days of the proleptic Gregorian calendar strictly before 1970,
/// counted from the start of year 1.
pub const EPOCH_DAYS: i64 = 719_162;

/// The compact on-disk time encoding: a calendar day given by year and
/// day-of-year, and a time of day whose fractional-second field counts
/// tenths of milliseconds. The `unused` byte mirrors the wire layout and
/// carries no time information.
#[derive(Clone, Copy, Debug, PartialEq, Eq, Structural)]
pub struct BTime {
    pub year: u16,
    pub day: u16,
    pub hour: u8,
    pub min: u8,
    pub sec: u8,
    pub unused: u8,
    pub fract: u16,
}

/// Whether `y` is a leap year of the proleptic Gregorian calendar.
pub open spec fn is_leap_year(y: int) -> bool {
    (y % 4 == 0 && y % 100 != 0) || y % 400 == 0
}

/// Number of days in year `y`.
pub open spec fn days_in_year(y: int) -> int {
    if is_leap_year(y) {
        366
    } else {
        365
    }
}

/// Days of the proleptic Gregorian calendar strictly before year `y`,
/// counted from the start of year 1.
pub open spec fn days_before_year(y: int) -> int
    recommends
        y >= 1,
{
    (y - 1) * 365 + (y - 1) / 4 - (y - 1) / 100 + (y - 1) / 400
}

/// The timestamp of a field tuple: microseconds since the 1970 epoch.
pub open spec fn btime_ts(b: BTime) -> int {
    (days_before_year(b.year as int) - EPOCH_DAYS + (b.day as int - 1)) * US_PER_DAY
        + (b.hour as int) * US_PER_HOUR + (b.min as int) * US_PER_MINUTE + (b.sec as int)
        * US_PER_SECOND + (b.fract as int) * FRACT_UNIT_US
}

/// A field tuple the codec accepts: the day exists in the year and the
/// time of day is in range. A leap second (second field 60) has no
/// distinct place on the continuous timeline and is rejected.
pub open spec fn btime_valid(b: BTime) -> bool {
    &&& 1 <= b.year
    &&& 1 <= b.day <= days_in_year(b.year as int)
    &&& b.hour < 24
    &&& b.min < 60
    &&& b.sec < 60
    &&& b.fract < 10_000
}

/// The least encodable timestamp: the start of year 1.
pub open spec fn ts_min() -> int {
    -EPOCH_DAYS * US_PER_DAY
}

/// One past the greatest encodable timestamp: the start of the first
/// year the 16-bit year field cannot hold.
pub open spec fn ts_limit() -> int {
    (days_before_year(0x10000) - EPOCH_DAYS) * US_PER_DAY
}

/// Whether `t` lies in the range the on-disk encoding can carry.
pub open spec fn encodable(t: int) -> bool {
    ts_min() <= t < ts_limit()
}

/// Stepping the quotient: dividing `n` rather than `n - 1` by `d` adds
/// one exactly when `d` divides `n`.
proof fn lemma_div_step(n: int, d: int)
    requires
        1 <= n,
        1 <= d,
    ensures
        n / d == (n - 1) / d + if n % d == 0 {
            1int
        } else {
            0int
        },
        n % d == 0 ==> (n - 1) % d == d - 1,
{
    lemma_fundamental_div_mod(n - 1, d);
    let q = (n - 1) / d;
    let r = (n - 1) % d;
    if r == d - 1 {
        assert(n == (q + 1) * d + 0) by (nonlinear_arith)
            requires
                n - 1 == d * q + r,
                r == d - 1,
        ;
        lemma_fundamental_div_mod_converse(n, d, q + 1, 0);
    } else {
        assert(n == q * d + (r + 1)) by (nonlinear_arith)
            requires
                n - 1 == d * q + r,
        ;
        lemma_fundamental_div_mod_converse(n, d, q, r + 1);
    }
}

/// A multiple of 400 is a multiple of 100 and of 4, and a multiple of
/// 100 is a multiple of 4.
proof fn lemma_divisibility_transfer(y: int)
    requires
        y >= 1,
    ensures
        y % 400 == 0 ==> y % 100 == 0 && y % 4 == 0,
        y % 100 == 0 ==> y % 4 == 0,
{
    if y % 400 == 0 {
        lemma_fundamental_div_mod(y, 400);
        assert(y == 400 * (y / 400));
        assert(y == (4 * (y / 400)) * 100) by (nonlinear_arith)
            requires
                y == 400 * (y / 400),
        ;
        lemma_mod_multiples_basic(4 * (y / 400), 100);
        assert(y == (100 * (y / 400)) * 4) by (nonlinear_arith)
            requires
                y == 400 * (y / 400),
        ;
        lemma_mod_multiples_basic(100 * (y / 400), 4);
    }
    if y % 100 == 0 {
        lemma_fundamental_div_mod(y, 100);
        assert(y == 100 * (y / 100));
        assert(y == (25 * (y / 100)) * 4) by (nonlinear_arith)
            requires
                y == 100 * (y / 100),
        ;
        lemma_mod_multiples_basic(25 * (y / 100), 4);
    }
}

/// The day count grows by exactly the length of the year stepped over.
proof fn lemma_year_step(y: int)
    requires
        y >= 1,
    ensures
        days_before_year(y + 1) == days_before_year(y) + days_in_year(y),
{
    lemma_div_step(y, 4);
    lemma_div_step(y, 100);
    lemma_div_step(y, 400);
    lemma_divisibility_transfer(y);
}

/// The day count is monotonic in the year, growing by at least 365 per
/// year stepped over.
proof fn lemma_days_before_year_mono(y1: int, y2: int)
    requires
        1 <= y1 <= y2,
    ensures
        days_before_year(y1) + 365 * (y2 - y1) <= days_before_year(y2),
    decreases y2 - y1,
{
    if y1 < y2 {
        lemma_days_before_year_mono(y1, y2 - 1);
        lemma_year_step(y2 - 1);
    }
}

/// The day count stays between 365 and 366 days per elapsed year.
proof fn lemma_days_before_year_bounds(y: int)
    requires
        1 <= y,
    ensures
        365 * (y - 1) <= days_before_year(y) <= 366 * (y - 1),
{
    lemma_div_pos_is_pos(y - 1, 400);
    lemma_div_nonincreasing(y - 1, 4);
    lemma_div_is_ordered_by_denominator(y - 1, 4, 100);
    lemma_div_is_ordered_by_denominator(y - 1, 100, 400);
}

/// Every field-tuple timestamp is a whole number of fractional units.
pub proof fn lemma_btime_ts_mod(b: BTime)
    ensures
        btime_ts(b) == 100 * ((days_before_year(b.year as int) - EPOCH_DAYS + (b.day as int - 1))
            * 864_000_000 + (b.hour as int) * 36_000_000 + (b.min as int) * 600_000 + (
        b.sec as int) * 10_000 + (b.fract as int)),
{
    let dd = days_before_year(b.year as int) - EPOCH_DAYS + (b.day as int - 1);
    assert(dd * 86_400_000_000 == 100 * (dd * 864_000_000)) by (nonlinear_arith);
    assert((b.hour as int) * 3_600_000_000 == 100 * ((b.hour as int) * 36_000_000))
        by (nonlinear_arith);
    assert((b.min as int) * 60_000_000 == 100 * ((b.min as int) * 600_000)) by (nonlinear_arith);
    assert((b.sec as int) * 1_000_000 == 100 * ((b.sec as int) * 10_000)) by (nonlinear_arith);
}

/// The timestamp of every valid field tuple lies in the encodable range.
pub proof fn lemma_valid_ts_encodable(b: BTime)
    requires
        btime_valid(b),
    ensures
        encodable(btime_ts(b)),
        i64::MIN < btime_ts(b) < i64::MAX,
{
    lemma_days_before_year_bounds(b.year as int);
    lemma_year_step(b.year as int);
    if b.year as int + 1 <= 0x10000 {
        lemma_days_before_year_mono(b.year as int + 1, 0x10000);
    }
    assert(days_before_year(0x10000) == 23_936_166);
    assert(days_before_year(b.year as int) + (b.day as int - 1) <= days_before_year(0x10000) - 1);
}

/// Whether `t` lies in the range the on-disk encoding can carry.
pub fn is_encodable(t: i64) -> (r: bool)
    ensures
        r == encodable(t as int),
{
    proof {
        assert(ts_limit() == 23_217_004 * 86_400_000_000);
    }
    -719_162 * 86_400_000_000 <= t && t < 23_217_004 * 86_400_000_000
}

/// Whether `y` is a leap year.
pub fn is_leap(y: u16) -> (r: bool)
    ensures
        r == is_leap_year(y as int),
{
    (y % 4 == 0 && y % 100 != 0) || y % 400 == 0
}

/// Days of the calendar strictly before year `y`.
fn days_before(y: u32) -> (d: u64)
    requires
        1 <= y <= 0x10000,
    ensures
        d == days_before_year(y as int),
{
    let yy: u64 = (y - 1) as u64;
    proof {
        lemma_div_is_ordered_by_denominator(yy as int, 4, 100);
        lemma_div_nonincreasing(yy as int, 4);
        lemma_div_pos_is_pos(yy as int, 400);
    }
    yy * 365 + yy / 4 - yy / 100 + yy / 400
}

/// Decodes a field tuple into a timestamp.
///
/// Succeeds exactly on valid tuples and then returns their timestamp;
/// a day outside the year, a leap second, or any other field beyond its
/// range is reported as a malformed header, never tolerated silently.
pub fn decode(b: &BTime) -> (r: Result<i64, MsError>)
    ensures
        r matches Ok(t) ==> btime_valid(*b) && t == btime_ts(*b),
        !btime_valid(*b) ==> r == Err::<i64, MsError>(MsError::MalformedHeader),
        btime_valid(*b) ==> r is Ok,
{
    let diy: u16 = if is_leap(b.year) {
        366
    } else {
        365
    };
    if b.year < 1 || b.day < 1 || b.day > diy || b.hour >= 24 || b.min >= 60 || b.sec >= 60
        || b.fract >= 10_000 {
        return Err(MsError::MalformedHeader);
    }
    let dby: u64 = days_before(b.year as u32);
    proof {
        lemma_days_before_year_bounds(b.year as int);
    }
    let days: i64 = dby as i64 - EPOCH_DAYS + (b.day as i64 - 1);
    let t: i64 = days * US_PER_DAY + (b.hour as i64) * US_PER_HOUR + (b.min as i64) * US_PER_MINUTE
        + (b.sec as i64) * US_PER_SECOND + (b.fract as i64) * FRACT_UNIT_US;
    Ok(t)
}

/// Encodes a timestamp into the field tuple whose timestamp is the
/// greatest one not above `t`.
///
/// Succeeds exactly on the encodable range. Sub-unit microseconds (a
/// timestamp not on a 100-microsecond boundary) are truncated, never
/// rounded up: the result `b` satisfies
/// `btime_ts(b) <= t < btime_ts(b) + FRACT_UNIT_US`.
pub fn encode(t: i64) -> (r: Result<BTime, MsError>)
    ensures
        r matches Ok(b) ==> btime_valid(b) && b.unused == 0 && btime_ts(b) <= t < btime_ts(b)
            + FRACT_UNIT_US,
        r is Ok <==> encodable(t as int),
{
    proof {
        assert(ts_limit() == 23_217_004 * 86_400_000_000);
    }
    if t < -719_162 * 86_400_000_000 || t >= 23_217_004 * 86_400_000_000 {
        return Err(MsError::MalformedHeader);
    }
    let u: u64 = (t - (-719_162 * 86_400_000_000)) as u64;
    let days: u64 = u / 86_400_000_000;
    let rem: u64 = u % 86_400_000_000;
    proof {
        lemma_fundamental_div_mod(u as int, 86_400_000_000);
        assert(days < 23_936_166) by {
            lemma_div_is_ordered(u as int, 23_936_166 * 86_400_000_000 - 1, 86_400_000_000);
            assert((23_936_166 * 86_400_000_000 - 1) / 86_400_000_000 == 23_936_165);
        }
    }
    let mut y: u32 = (days / 366 + 1) as u32;
    proof {
        lemma_fundamental_div_mod(days as int, 366);
        lemma_days_before_year_bounds(y as int);
        assert(days_before_year(y as int) <= days);
        assert(days_before_year(0x10000int) == 23_936_166);
        if y > 0xffff {
            lemma_days_before_year_mono(0x10000, y as int);
        }
    }
    while days_before(y + 1) <= days
        invariant
            1 <= y <= 0xffff,
            days_before_year(y as int) <= days as int,
            days < 23_936_166,
        decreases days as int - y as int,
    {
        proof {
            lemma_days_before_year_bounds(y as int + 1);
            assert(365 * (y as int) <= days_before_year(y as int + 1));
            assert(days_before_year(0x10000int) == 23_936_166);
            if y + 1 > 0xffff {
                lemma_days_before_year_mono(0x10000, y as int + 2);
                lemma_year_step(y as int + 1);
            }
        }
        y = y + 1;
    }
    proof {
        lemma_year_step(y as int);
    }
    let yday: u64 = days - days_before(y) + 1;
    let hour: u64 = rem / 3_600_000_000;
    let rem2: u64 = rem % 3_600_000_000;
    let minute: u64 = rem2 / 60_000_000;
    let rem3: u64 = rem2 % 60_000_000;
    let sec: u64 = rem3 / 1_000_000;
    let rem4: u64 = rem3 % 1_000_000;
    let fract: u64 = rem4 / 100;
    proof {
        lemma_fundamental_div_mod(rem as int, 3_600_000_000);
        lemma_fundamental_div_mod(rem2 as int, 60_000_000);
        lemma_fundamental_div_mod(rem3 as int, 1_000_000);
        lemma_fundamental_div_mod(rem4 as int, 100);
        lemma_div_is_ordered(rem as int, 86_400_000_000 - 1, 3_600_000_000);
        assert((86_400_000_000 - 1) / 3_600_000_000 == 23);
    }
    let b = BTime {
        year: y as u16,
        day: yday as u16,
        hour: hour as u8,
        min: minute as u8,
        sec: sec as u8,
        unused: 0,
        fract: fract as u16,
    };
    Ok(b)
}

/// Law: a timestamp determines its valid field tuple uniquely, so
/// encoding inverts decoding. Any two valid tuples whose timestamps lie
/// within one fractional unit of each other are the same tuple; with the
/// contracts of `decode` and `encode` this gives
/// `encode(decode(b)) == Ok(b)` for every valid tuple `b` whose unused
/// byte is zero.
pub proof fn lemma_time_round_trip(b: BTime, b2: BTime)
    requires
        btime_valid(b),
        b.unused == 0,
        btime_valid(b2),
        b2.unused == 0,
        btime_ts(b2) <= btime_ts(b) < btime_ts(b2) + FRACT_UNIT_US,
    ensures
        b2 == b,
{
    lemma_btime_ts_mod(b);
    lemma_btime_ts_mod(b2);
    assert(btime_ts(b) == btime_ts(b2));
    let d1 = days_before_year(b.year as int) + (b.day as int - 1);
    let d2 = days_before_year(b2.year as int) + (b2.day as int - 1);
    let t1 = (b.hour as int) * US_PER_HOUR + (b.min as int) * US_PER_MINUTE + (b.sec as int)
        * US_PER_SECOND + (b.fract as int) * FRACT_UNIT_US;
    let t2 = (b2.hour as int) * US_PER_HOUR + (b2.min as int) * US_PER_MINUTE + (b2.sec as int)
        * US_PER_SECOND + (b2.fract as int) * FRACT_UNIT_US;
    let u = btime_ts(b) + EPOCH_DAYS * US_PER_DAY;
    lemma_days_before_year_bounds(b.year as int);
    lemma_days_before_year_bounds(b2.year as int);
    assert(u == d1 * US_PER_DAY + t1);
    assert(u == d2 * US_PER_DAY + t2);
    lemma_fundamental_div_mod_converse(u, US_PER_DAY as int, d1, t1);
    lemma_fundamental_div_mod_converse(u, US_PER_DAY as int, d2, t2);
    assert(d1 == d2 && t1 == t2);
    // The day count determines the year: each valid tuple places it in
    // the half-open day range of its own year.
    lemma_year_step(b.year as int);
    lemma_year_step(b2.year as int);
    if b.year < b2.year {
        lemma_days_before_year_mono(b.year as int + 1, b2.year as int);
        assert(false);
    }
    if b2.year < b.year {
        lemma_days_before_year_mono(b2.year as int + 1, b.year as int);
        assert(false);
    }
    // The time of day decomposes uniquely into hour, minute, second and
    // fraction.
    lemma_fundamental_div_mod_converse(
        t1,
        US_PER_HOUR as int,
        b.hour as int,
        (b.min as int) * US_PER_MINUTE + (b.sec as int) * US_PER_SECOND + (b.fract as int)
            * FRACT_UNIT_US,
    );
    lemma_fundamental_div_mod_converse(
        t2,
        US_PER_HOUR as int,
        b2.hour as int,
        (b2.min as int) * US_PER_MINUTE + (b2.sec as int) * US_PER_SECOND + (b2.fract as int)
            * FRACT_UNIT_US,
    );
    let s1 = (b.min as int) * US_PER_MINUTE + (b.sec as int) * US_PER_SECOND + (b.fract as int)
        * FRACT_UNIT_US;
    lemma_fundamental_div_mod_converse(
        s1,
        US_PER_MINUTE as int,
        b.min as int,
        (b.sec as int) * US_PER_SECOND + (b.fract as int) * FRACT_UNIT_US,
    );
    lemma_fundamental_div_mod_converse(
        s1,
        US_PER_MINUTE as int,
        b2.min as int,
        (b2.sec as int) * US_PER_SECOND + (b2.fract as int) * FRACT_UNIT_US,
    );
    let s2 = (b.sec as int) * US_PER_SECOND + (b.fract as int) * FRACT_UNIT_US;
    lemma_fundamental_div_mod_converse(s2, US_PER_SECOND as int, b.sec as int, (b.fract as int)
        * FRACT_UNIT_US);
    lemma_fundamental_div_mod_converse(s2, US_PER_SECOND as int, b2.sec as int, (b2.fract as int)
        * FRACT_UNIT_US);
}

impl BTime {
    /// The all-zero tuple: a placeholder, not a valid time (its day
    /// field is zero).
    pub fn zero() -> (r: BTime)
        ensures
            r == (BTime { year: 0, day: 0, hour: 0, min: 0, sec: 0, unused: 0, fract: 0 }),
    {
        BTime { year: 0, day: 0, hour: 0, min: 0, sec: 0, unused: 0, fract: 0 }
    }
}

} // verus!
