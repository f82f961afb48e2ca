//! Splitting a millisecond timestamp and decoding it into a civil UTC date.
use vstd::prelude::*;
use vstd::arithmetic::div_mod::{
    lemma_div_is_ordered, lemma_fundamental_div_mod, lemma_fundamental_div_mod_converse,
};

verus! {

/// Milliseconds in one second.
pub const MS_PER_SECOND: i64 = 1000;

/// Nanoseconds in one millisecond.
pub const NANOS_PER_MS: i64 = 1_000_000;

/// Whole seconds of a millisecond timestamp, rounded towards minus infinity.
pub open spec fn unix_seconds(timestamp_ms: int) -> int {
    timestamp_ms / 1000
}

/// Sub-second part of a millisecond timestamp, in nanoseconds, in `[0, 1e9)`.
pub open spec fn subsecond_nanos(timestamp_ms: int) -> int {
    (timestamp_ms % 1000) * 1_000_000
}

/// Splits a millisecond timestamp into whole seconds (floor) and the
/// nanoseconds left over.
pub fn split_timestamp_ms(timestamp_ms: i64) -> (r: (i64, u32))
    ensures
        r.0 == unix_seconds(timestamp_ms as int),
        r.1 == subsecond_nanos(timestamp_ms as int),
        r.1 < 1_000_000_000,
        r.0 * 1000 + r.1 / 1_000_000 == timestamp_ms,
{
    proof {
        lemma_fundamental_div_mod(timestamp_ms as int, 1000);
    }
    let secs: i64 = timestamp_ms.checked_div_euclid(MS_PER_SECOND).unwrap();
    let ms: i64 = timestamp_ms.checked_rem_euclid(MS_PER_SECOND).unwrap();
    let nanos: u32 = (ms * NANOS_PER_MS) as u32;
    (secs, nanos)
}

/// Earliest year that the decoder represents.
pub const MIN_YEAR: i32 = -262_143;

/// Latest year that the decoder represents.
pub const MAX_YEAR: i32 = 262_142;

/// Why a timestamp could not be turned into a date.
#[derive(Debug, Clone, Copy, PartialEq, Eq, Structural)]
pub enum TimeError {
    /// The instant lies outside the range of representable civil dates.
    InvalidTimestamp,
}

/// A UTC instant as a proleptic-Gregorian civil date and time of day.
#[derive(Debug, Clone, Copy, PartialEq, Eq, Structural)]
pub struct CivilDateTime {
    pub year: i32,
    pub month: u32,
    pub day: u32,
    pub hour: u32,
    pub minute: u32,
    pub second: u32,
    pub nanosecond: u32,
}

/// Leap years of the proleptic Gregorian calendar.
pub open spec fn is_leap_year(y: int) -> bool {
    y % 4 == 0 && (y % 100 != 0 || y % 400 == 0)
}

/// Number of days in month `m` (1 to 12) of year `y`.
pub open spec fn days_in_month(y: int, m: int) -> int {
    if m == 2 {
        if is_leap_year(y) { 29 } else { 28 }
    } else if m == 4 || m == 6 || m == 9 || m == 11 {
        30
    } else {
        31
    }
}

/// Number of days from 1970-01-01 to the given proleptic-Gregorian date
/// (negative before it). Years are counted in 400-year eras of 146097 days
/// whose years start on March 1st, so that a leap day closes its year.
pub open spec fn days_from_civil(y: int, m: int, d: int) -> int {
    let yy = if m <= 2 { y - 1 } else { y };
    let era = yy / 400;
    let yoe = yy % 400;
    let mp = if m > 2 { m - 3 } else { m + 9 };
    let doy = (153 * mp + 2) / 5 + d - 1;
    let doe = yoe * 365 + yoe / 4 - yoe / 100 + doy;
    era * 146097 + doe - 719468
}

/// First day (counted from 1970-01-01) that the decoder represents.
pub open spec fn min_unix_day() -> int {
    days_from_civil(MIN_YEAR as int, 1, 1)
}

/// Last day (counted from 1970-01-01) that the decoder represents.
pub open spec fn max_unix_day() -> int {
    days_from_civil(MAX_YEAR as int, 12, 31)
}

/// Day (counted from 1970-01-01) that holds the instant `timestamp_ms`.
pub open spec fn unix_day(timestamp_ms: int) -> int {
    unix_seconds(timestamp_ms) / 86400
}

/// Whether the instant falls on a representable civil date.
pub open spec fn timestamp_in_range(timestamp_ms: int) -> bool {
    min_unix_day() <= unix_day(timestamp_ms) <= max_unix_day()
}

impl CivilDateTime {
    /// The fields name an existing date and time of day within the
    /// representable years.
    pub open spec fn wf(&self) -> bool {
        &&& MIN_YEAR <= self.year <= MAX_YEAR
        &&& 1 <= self.month <= 12
        &&& 1 <= self.day <= days_in_month(self.year as int, self.month as int)
        &&& self.hour < 24
        &&& self.minute < 60
        &&& self.second < 60
        &&& self.nanosecond < 1_000_000_000
    }

    /// Day of this date, counted from 1970-01-01.
    pub open spec fn unix_day_spec(&self) -> int {
        days_from_civil(self.year as int, self.month as int, self.day as int)
    }

    /// Whole seconds elapsed since midnight.
    pub open spec fn seconds_of_day(&self) -> int {
        self.hour * 3600 + self.minute * 60 + self.second
    }

    /// Nanoseconds elapsed since midnight.
    pub open spec fn nanos_of_day_spec(&self) -> int {
        self.seconds_of_day() * 1_000_000_000 + self.nanosecond
    }

    /// Nanoseconds elapsed since midnight.
    pub fn nanos_of_day(&self) -> (r: u64)
        requires
            self.wf(),
        ensures
            r == self.nanos_of_day_spec(),
            r < 86_400_000_000_000u64,
    {
        let secs: u64 = self.hour as u64 * 3600 + self.minute as u64 * 60 + self.second as u64;
        secs * 1_000_000_000 + self.nanosecond as u64
    }
}

/// Relies on chrono's `Utc.timestamp_opt(secs, nanos).single()` and the
/// `Datelike` / `Timelike` getters of the `DateTime<Utc>` it returns.
/// chrono's `DateTime::from_timestamp` takes the day `secs.div_euclid(86400)`
/// and the second of the day `secs.rem_euclid(86400)`; it fails only when that
/// day falls outside `NaiveDate::MIN ..= NaiveDate::MAX` (years -262143 to
/// 262142), since a nanosecond below 1e9 is always accepted.
#[verifier::external_body]
fn decode_unix_time(secs: i64, nanos: u32) -> (r: Option<CivilDateTime>)
    requires
        nanos < 1_000_000_000,
    ensures
        r.is_some() <==> min_unix_day() <= secs / 86400 <= max_unix_day(),
        r matches Some(c) ==> {
            &&& c.wf()
            &&& c.unix_day_spec() == secs / 86400
            &&& c.seconds_of_day() == secs % 86400
            &&& c.nanosecond == nanos
        },
{
    let dt = chrono::TimeZone::timestamp_opt(&chrono::Utc, secs, nanos).single()?;
    Some(CivilDateTime {
        year: chrono::Datelike::year(&dt),
        month: chrono::Datelike::month(&dt),
        day: chrono::Datelike::day(&dt),
        hour: chrono::Timelike::hour(&dt),
        minute: chrono::Timelike::minute(&dt),
        second: chrono::Timelike::second(&dt),
        nanosecond: chrono::Timelike::nanosecond(&dt),
    })
}

/// `c` is the UTC civil date and time of the instant `timestamp_ms`
/// milliseconds after 1970-01-01T00:00:00Z.
pub open spec fn is_civil_of(timestamp_ms: int, c: CivilDateTime) -> bool {
    &&& c.wf()
    &&& c.unix_day_spec() == unix_day(timestamp_ms)
    &&& c.nanos_of_day_spec() == (timestamp_ms % 86_400_000) * 1_000_000
}

/// Decodes a millisecond Unix timestamp into its UTC civil date and time.
pub fn civil_from_timestamp(timestamp_ms: i64) -> (r: Result<CivilDateTime, TimeError>)
    ensures
        r.is_ok() <==> timestamp_in_range(timestamp_ms as int),
        r matches Err(e) ==> e == TimeError::InvalidTimestamp,
        r matches Ok(c) ==> is_civil_of(timestamp_ms as int, c),
{
    let (secs, nanos) = split_timestamp_ms(timestamp_ms);
    let decoded = decode_unix_time(secs, nanos);
    match decoded {
        Some(c) => {
            proof {
                lemma_time_of_day(timestamp_ms as int);
            }
            Ok(c)
        },
        None => Err(TimeError::InvalidTimestamp),
    }
}

/// The time of day of an instant, read off whole seconds and the
/// sub-second rest, is the timestamp taken modulo one day.
pub proof fn lemma_time_of_day(ts: int)
    ensures
        (unix_seconds(ts) % 86400) * 1_000_000_000 + subsecond_nanos(ts) == (ts % 86_400_000)
            * 1_000_000,
        unix_day(ts) == ts / 86_400_000,
{
    let s = ts / 1000;
    let ms = ts % 1000;
    let d = s / 86400;
    let sd = s % 86400;
    lemma_fundamental_div_mod(ts, 1000);
    lemma_fundamental_div_mod(s, 86400);
    assert(ts == d * 86_400_000 + (sd * 1000 + ms));
    lemma_fundamental_div_mod_converse(ts, 86_400_000, d, sd * 1000 + ms);
}

/// Offset of the first day of March-based month `mp` (0 is March) within
/// its year.
spec fn month_start(mp: int) -> int {
    (153 * mp + 2) / 5
}

/// Offset of the first day of year `yoe` within its 400-year era.
spec fn year_start(yoe: int) -> int {
    yoe * 365 + yoe / 4 - yoe / 100
}

/// A valid day lies inside its month, and the last March-based month
/// (February) ends the year.
proof fn lemma_day_within_month(y: int, m: int, d: int)
    requires
        1 <= m <= 12,
        1 <= d <= days_in_month(y, m),
    ensures
        ({
            let mp = if m > 2 { m - 3 } else { m + 9 };
            let doy = month_start(mp) + d - 1;
            &&& month_start(mp) <= doy
            &&& mp < 11 ==> doy < month_start(mp + 1)
            &&& mp == 11 ==> doy <= if is_leap_year(y) { 365int } else { 364int }
        }),
{
    if m == 1 {
    } else if m == 2 {
    } else if m == 3 {
    } else if m == 4 {
    } else if m == 5 {
    } else if m == 6 {
    } else if m == 7 {
    } else if m == 8 {
    } else if m == 9 {
    } else if m == 10 {
    } else if m == 11 {
    } else {
    }
}

/// Year `k + 1` of an era starts 365 days after year `k`, one more when
/// the March-based year `k` closes with a leap day.
proof fn lemma_year_step(k: int)
    requires
        0 <= k < 399,
    ensures
        year_start(k + 1) - year_start(k) == 365 + (if (k + 1) % 4 == 0 { 1int } else { 0int }) - (
        if (k + 1) % 100 == 0 { 1int } else { 0int }),
{
    lemma_fundamental_div_mod(k, 4);
    lemma_fundamental_div_mod(k, 100);
    if k % 4 == 3 {
        lemma_fundamental_div_mod_converse(k + 1, 4, k / 4 + 1, 0);
    } else {
        lemma_fundamental_div_mod_converse(k + 1, 4, k / 4, k % 4 + 1);
    }
    if k % 100 == 99 {
        lemma_fundamental_div_mod_converse(k + 1, 100, k / 100 + 1, 0);
    } else {
        lemma_fundamental_div_mod_converse(k + 1, 100, k / 100, k % 100 + 1);
    }
}

proof fn lemma_year_start_increasing(a: int, b: int)
    requires
        0 <= a < b <= 399,
    ensures
        year_start(a + 1) <= year_start(b),
    decreases b - a,
{
    if a + 1 < b {
        lemma_year_start_increasing(a + 1, b);
        lemma_year_step(a + 1);
    }
}

/// Leap-ness of a year depends only on its place in the 400-year cycle.
proof fn lemma_leap_in_era(era: int, k: int)
    requires
        0 <= k <= 400,
    ensures
        is_leap_year(400 * era + k) == ((k % 4 == 0 && k % 100 != 0) || k % 400 == 0),
{
    lemma_fundamental_div_mod(k, 4);
    lemma_fundamental_div_mod(k, 100);
    lemma_fundamental_div_mod(k, 400);
    lemma_fundamental_div_mod_converse(400 * era + k, 4, 100 * era + k / 4, k % 4);
    lemma_fundamental_div_mod_converse(400 * era + k, 100, 4 * era + k / 100, k % 100);
    lemma_fundamental_div_mod_converse(400 * era + k, 400, era + k / 400, k % 400);
}

/// The day count of a valid date splits into its era and the day of the era,
/// which lies in `[0, 146097)`.
proof fn lemma_day_of_era_bounds(y: int, m: int, d: int)
    requires
        1 <= m <= 12,
        1 <= d <= days_in_month(y, m),
    ensures
        ({
            let yy = if m <= 2 { y - 1 } else { y };
            let mp = if m > 2 { m - 3 } else { m + 9 };
            let doy = month_start(mp) + d - 1;
            let doe = year_start(yy % 400) + doy;
            &&& 0 <= doe < 146097
            &&& yy % 400 < 399 ==> doe < year_start(yy % 400 + 1)
            &&& days_from_civil(y, m, d) + 719468 == (yy / 400) * 146097 + doe
        }),
{
    let yy = if m <= 2 { y - 1 } else { y };
    let era = yy / 400;
    let yoe = yy % 400;
    lemma_fundamental_div_mod(yy, 400);
    lemma_day_within_month(y, m, d);
    let mp = if m > 2 { m - 3 } else { m + 9 };
    lemma_div_is_ordered(2, 153 * mp + 2, 5);
    if mp == 11 {
        assert(y == 400 * era + (yoe + 1));
        lemma_leap_in_era(era, yoe + 1);
    }
    if yoe < 399 {
        lemma_year_step(yoe);
        lemma_year_start_increasing(yoe, 399);
    }
}

/// A day count names at most one valid date.
pub proof fn lemma_days_from_civil_injective(y1: int, m1: int, d1: int, y2: int, m2: int, d2: int)
    requires
        1 <= m1 <= 12,
        1 <= d1 <= days_in_month(y1, m1),
        1 <= m2 <= 12,
        1 <= d2 <= days_in_month(y2, m2),
        days_from_civil(y1, m1, d1) == days_from_civil(y2, m2, d2),
    ensures
        y1 == y2 && m1 == m2 && d1 == d2,
{
    let yy1 = if m1 <= 2 { y1 - 1 } else { y1 };
    let yy2 = if m2 <= 2 { y2 - 1 } else { y2 };
    let mp1 = if m1 > 2 { m1 - 3 } else { m1 + 9 };
    let mp2 = if m2 > 2 { m2 - 3 } else { m2 + 9 };
    let doy1 = month_start(mp1) + d1 - 1;
    let doy2 = month_start(mp2) + d2 - 1;
    let doe1 = year_start(yy1 % 400) + doy1;
    let doe2 = year_start(yy2 % 400) + doy2;
    lemma_day_of_era_bounds(y1, m1, d1);
    lemma_day_of_era_bounds(y2, m2, d2);
    let n = days_from_civil(y1, m1, d1) + 719468;
    lemma_fundamental_div_mod_converse(n, 146097, yy1 / 400, doe1);
    lemma_fundamental_div_mod_converse(n, 146097, yy2 / 400, doe2);
    lemma_fundamental_div_mod(yy1, 400);
    lemma_fundamental_div_mod(yy2, 400);
    let k1 = yy1 % 400;
    let k2 = yy2 % 400;
    if k1 < k2 {
        lemma_year_start_increasing(k1, k2);
    } else if k2 < k1 {
        lemma_year_start_increasing(k2, k1);
    }
    assert(k1 == k2);
    assert(yy1 == yy2);
    lemma_day_within_month(y1, m1, d1);
    lemma_day_within_month(y2, m2, d2);
    if mp1 < mp2 {
        lemma_div_is_ordered(153 * (mp1 + 1) + 2, 153 * mp2 + 2, 5);
    } else if mp2 < mp1 {
        lemma_div_is_ordered(153 * (mp2 + 1) + 2, 153 * mp1 + 2, 5);
    }
    assert(mp1 == mp2);
}

/// The civil date and time of an instant is unique: any two decodings of
/// the same timestamp are equal, so repeated conversions agree.
pub proof fn lemma_civil_of_unique(timestamp_ms: int, a: CivilDateTime, b: CivilDateTime)
    requires
        is_civil_of(timestamp_ms, a),
        is_civil_of(timestamp_ms, b),
    ensures
        a == b,
{
    lemma_days_from_civil_injective(
        a.year as int,
        a.month as int,
        a.day as int,
        b.year as int,
        b.month as int,
        b.day as int,
    );
    let n = a.nanos_of_day_spec();
    lemma_fundamental_div_mod_converse(n, 1_000_000_000, a.seconds_of_day(), a.nanosecond as int);
    lemma_fundamental_div_mod_converse(n, 1_000_000_000, b.seconds_of_day(), b.nanosecond as int);
    let s = a.seconds_of_day();
    lemma_fundamental_div_mod_converse(s, 3600, a.hour as int, a.minute * 60 + a.second);
    lemma_fundamental_div_mod_converse(s, 3600, b.hour as int, b.minute * 60 + b.second);
    let ms = a.minute * 60 + a.second;
    lemma_fundamental_div_mod_converse(ms, 60, a.minute as int, a.second as int);
    lemma_fundamental_div_mod_converse(ms, 60, b.minute as int, b.second as int);
}

} // verus!
