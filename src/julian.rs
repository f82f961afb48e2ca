//! Julian Day of a UTC instant, held exactly as a day number and the
//! nanoseconds elapsed since the civil midnight that starts it.
use vstd::prelude::*;
use vstd::arithmetic::div_mod::{lemma_fundamental_div_mod, lemma_fundamental_div_mod_converse};
use crate::civil::{
    civil_from_timestamp, days_from_civil, lemma_time_of_day, timestamp_in_range, unix_day, CivilDateTime, TimeError,
    MAX_YEAR, MIN_YEAR,
};

verus! {

/// Nanoseconds in one day.
pub const NANOS_PER_DAY: u64 = 86_400_000_000_000;

/// Julian Day Number of 1970-01-01 (the Julian Day at its noon).
pub const UNIX_EPOCH_JDN: i64 = 2_440_588;

/// Julian Day Number of a proleptic-Gregorian date by the classical formula
/// `floor(365.25 (y + 4716)) + floor(30.6001 (m + 1)) + d + B - 1524`, where
/// January and February count as months 13 and 14 of the previous year and
/// `B = 2 - A + floor(A / 4)` with `A = floor(y / 100)`.
pub open spec fn julian_day_number_spec(year: int, month: int, day: int) -> int {
    let y = if month <= 2 { year - 1 } else { year };
    let m = if month <= 2 { month + 12 } else { month };
    let a = y / 100;
    let b = 2 - a + a / 4;
    (1461 * (y + 4716)) / 4 + (306001 * (m + 1)) / 10000 + day + b - 1524
}

/// A Julian Day: `JD = day - 1/2 + nanos_of_day / NANOS_PER_DAY`, so `day` is
/// the Julian Day Number of the civil date and `nanos_of_day` the time since
/// its midnight.
#[derive(Debug, Clone, Copy, PartialEq, Eq, Structural)]
pub struct JulianDay {
    pub day: i64,
    pub nanos_of_day: u64,
}

impl JulianDay {
    pub open spec fn wf(&self) -> bool {
        self.nanos_of_day < NANOS_PER_DAY
    }

    /// `(JD + 1/2) * NANOS_PER_DAY`: the Julian Day as a whole number of
    /// nanoseconds counted from the midnight that starts Julian Day Number 0.
    pub open spec fn nanos_spec(&self) -> int {
        self.day * NANOS_PER_DAY + self.nanos_of_day
    }
}

/// `j` is the Julian Day of the instant `timestamp_ms` milliseconds after
/// 1970-01-01T00:00:00Z, whose Julian Day is `UNIX_EPOCH_JDN - 1/2`.
pub open spec fn is_julian_day_of(timestamp_ms: int, j: JulianDay) -> bool {
    &&& j.wf()
    &&& j.nanos_spec() == timestamp_ms * 1_000_000 + UNIX_EPOCH_JDN * NANOS_PER_DAY
}

impl JulianDay {
    /// Julian Day of a civil date and time.
    pub fn from_civil(c: &CivilDateTime) -> (r: JulianDay)
        requires
            c.wf(),
        ensures
            r.wf(),
            r.day == julian_day_number_spec(c.year as int, c.month as int, c.day as int),
            r.nanos_of_day == c.nanos_of_day_spec(),
    {
        JulianDay { day: julian_day_number(c.year, c.month, c.day), nanos_of_day: c.nanos_of_day() }
    }
}

/// Julian Day of a millisecond Unix timestamp. Fails with `InvalidTimestamp`
/// exactly when the instant has no representable civil date.
pub fn timestamp_to_jd(timestamp_ms: i64) -> (r: Result<JulianDay, TimeError>)
    ensures
        r.is_ok() <==> timestamp_in_range(timestamp_ms as int),
        r matches Err(e) ==> e == TimeError::InvalidTimestamp,
        r matches Ok(j) ==> is_julian_day_of(timestamp_ms as int, j),
{
    let c = civil_from_timestamp(timestamp_ms)?;
    let j = JulianDay::from_civil(&c);
    proof {
        let ts = timestamp_ms as int;
        lemma_julian_day_number_counts_days(c.year as int, c.month as int, c.day as int);
        lemma_time_of_day(ts);
        lemma_fundamental_div_mod(ts, 86_400_000);
    }
    Ok(j)
}

/// Floor division by a positive divisor.
fn floor_div(a: i64, b: i64) -> (r: i64)
    requires
        b > 0,
    ensures
        r == a as int / b as int,
{
    proof {
        let q = a as int / b as int;
        let m = a as int % b as int;
        vstd::arithmetic::div_mod::lemma_fundamental_div_mod(a as int, b as int);
        assert(0 <= m < b);
        assert(i64::MIN <= q <= i64::MAX) by (nonlinear_arith)
            requires
                a == b * q + m,
                0 <= m < b,
                b > 0,
                i64::MIN <= a <= i64::MAX,
        ;
    }
    a.checked_div_euclid(b).unwrap()
}

/// Julian Day Number of a civil date.
pub fn julian_day_number(year: i32, month: u32, day: u32) -> (r: i64)
    requires
        MIN_YEAR <= year <= MAX_YEAR,
        1 <= month <= 12,
        1 <= day <= 31,
    ensures
        r == julian_day_number_spec(year as int, month as int, day as int),
{
    let (y, m): (i64, i64) = if month <= 2 {
        (year as i64 - 1, month as i64 + 12)
    } else {
        (year as i64, month as i64)
    };
    let a = floor_div(y, 100);
    let b = 2 - a + floor_div(a, 4);
    floor_div(1461 * (y + 4716), 4) + floor_div(306001 * (m + 1), 10000) + day as i64 + b - 1524
}

/// The month terms of the two day counts differ by a constant: the
/// `30.6001`-day months from March agree with `(153 mp + 2) / 5`.
proof fn lemma_month_terms(m: int)
    requires
        1 <= m <= 12,
    ensures
        ({
            let mm = if m <= 2 { m + 12 } else { m };
            let mp = if m > 2 { m - 3 } else { m + 9 };
            (306001 * (mm + 1)) / 10000 == (153 * mp + 2) / 5 + 122
        }),
{
    if m == 1 {
    } else if m == 2 {
    } else if m == 3 {
    } else if m == 4 {
    } else if m == 5 {
    } else if m == 6 {
    } else if m == 7 {
    } else if m == 8 {
    } else if m == 9 {
    } else if m == 10 {
    } else if m == 11 {
    } else {
    }
}

/// The classical Julian Day Number formula counts the same days as
/// `days_from_civil`, shifted to the Julian Day Number of 1970-01-01.
pub proof fn lemma_julian_day_number_counts_days(year: int, month: int, day: int)
    requires
        1 <= month <= 12,
    ensures
        julian_day_number_spec(year, month, day) == days_from_civil(year, month, day)
            + UNIX_EPOCH_JDN,
{
    let y = if month <= 2 { year - 1 } else { year };
    let era = y / 400;
    let r = y % 400;
    lemma_fundamental_div_mod(y, 400);
    let q4 = r / 4;
    let r4 = r % 4;
    lemma_fundamental_div_mod(r, 4);
    let q100 = r / 100;
    let r100 = r % 100;
    lemma_fundamental_div_mod(r, 100);
    assert(1461 * (y + 4716) == 4 * (146100 * era + 1722519 + 365 * r + q4) + r4);
    lemma_fundamental_div_mod_converse(
        1461 * (y + 4716),
        4,
        146100 * era + 1722519 + 365 * r + q4,
        r4,
    );
    assert(y == 100 * (4 * era + q100) + r100);
    lemma_fundamental_div_mod_converse(y, 100, 4 * era + q100, r100);
    assert(0 <= q100 < 4);
    lemma_fundamental_div_mod_converse(4 * era + q100, 4, era, q100);
    lemma_month_terms(month);
}

/// The Julian Day advances exactly with elapsed time: two instants
/// `timestamp_b - timestamp_a` milliseconds apart have Julian Days that far
/// apart, so the Julian Day is strictly increasing in the timestamp, one
/// second adds exactly `1/86400` day and a Julian year of 365.25 days adds
/// exactly 365.25 to it.
pub proof fn lemma_julian_day_tracks_elapsed_time(
    timestamp_a: int,
    timestamp_b: int,
    ja: JulianDay,
    jb: JulianDay,
)
    requires
        is_julian_day_of(timestamp_a, ja),
        is_julian_day_of(timestamp_b, jb),
    ensures
        jb.nanos_spec() - ja.nanos_spec() == (timestamp_b - timestamp_a) * 1_000_000,
        timestamp_a < timestamp_b ==> ja.nanos_spec() < jb.nanos_spec(),
{
}

/// The Julian Day of an instant is unique: any two results for the same
/// timestamp are equal, so repeated conversions agree.
pub proof fn lemma_julian_day_unique(timestamp_ms: int, ja: JulianDay, jb: JulianDay)
    requires
        is_julian_day_of(timestamp_ms, ja),
        is_julian_day_of(timestamp_ms, jb),
    ensures
        ja == jb,
{
    let n = timestamp_ms * 1_000_000 + UNIX_EPOCH_JDN * NANOS_PER_DAY;
    lemma_fundamental_div_mod_converse(n, NANOS_PER_DAY as int, ja.day as int, ja.nanos_of_day as int);
    lemma_fundamental_div_mod_converse(n, NANOS_PER_DAY as int, jb.day as int, jb.nanos_of_day as int);
}

} // verus!
