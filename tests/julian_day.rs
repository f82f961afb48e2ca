use heli_engine::civil::{civil_from_timestamp, split_timestamp_ms, CivilDateTime, TimeError};
use heli_engine::julian::{julian_day_number, timestamp_to_jd, JulianDay, NANOS_PER_DAY};

const NOON: u64 = 43_200_000_000_000;

#[test]
fn split_positive_timestamp() {
    assert_eq!(split_timestamp_ms(1_718_539_200_123), (1_718_539_200, 123_000_000));
}

#[test]
fn split_negative_timestamp_rounds_down() {
    assert_eq!(split_timestamp_ms(-1), (-1, 999_000_000));
    assert_eq!(split_timestamp_ms(-1000), (-1, 0));
}

#[test]
fn civil_date_of_june_calibration() {
    let c = civil_from_timestamp(1_718_539_200_000).unwrap();
    let expected = CivilDateTime {
        year: 2024,
        month: 6,
        day: 16,
        hour: 12,
        minute: 0,
        second: 0,
        nanosecond: 0,
    };
    assert_eq!(c, expected);
    assert_eq!(c.nanos_of_day(), NOON);
}

#[test]
fn civil_date_before_epoch() {
    let c = civil_from_timestamp(-1).unwrap();
    assert_eq!((c.year, c.month, c.day), (1969, 12, 31));
    assert_eq!((c.hour, c.minute, c.second, c.nanosecond), (23, 59, 59, 999_000_000));
}

#[test]
fn julian_day_number_known_dates() {
    assert_eq!(julian_day_number(2000, 1, 1), 2_451_545);
    assert_eq!(julian_day_number(1582, 10, 15), 2_299_161);
    assert_eq!(julian_day_number(1970, 1, 1), 2_440_588);
    assert_eq!(julian_day_number(-4713, 11, 24), 0);
    assert_eq!(julian_day_number(-262_143, 1, 1), -94_024_704);
}

#[test]
fn julian_day_from_civil_keeps_time_of_day() {
    let c = CivilDateTime {
        year: 2000,
        month: 1,
        day: 1,
        hour: 18,
        minute: 30,
        second: 15,
        nanosecond: 5,
    };
    let j = JulianDay::from_civil(&c);
    assert_eq!(j.day, 2_451_545);
    assert_eq!(j.nanos_of_day, 66_615_000_000_005);
}

#[test]
fn june_calibration_julian_day() {
    let j = timestamp_to_jd(1_718_539_200_000).unwrap();
    assert_eq!(j, JulianDay { day: 2_460_478, nanos_of_day: NOON });
}

#[test]
fn vernal_equinox_julian_day() {
    let j = timestamp_to_jd(1_710_936_000_000).unwrap();
    assert_eq!(j, JulianDay { day: 2_460_390, nanos_of_day: NOON });
}

#[test]
fn unix_epoch_julian_day() {
    let j = timestamp_to_jd(0).unwrap();
    assert_eq!(j, JulianDay { day: 2_440_588, nanos_of_day: 0 });
    let before = timestamp_to_jd(-1).unwrap();
    assert_eq!(before, JulianDay { day: 2_440_587, nanos_of_day: NANOS_PER_DAY - 1_000_000 });
}

#[test]
fn julian_day_is_repeatable() {
    let ts: i64 = 1_718_539_212_345;
    assert_eq!(timestamp_to_jd(ts), timestamp_to_jd(ts));
    assert_eq!(civil_from_timestamp(ts), civil_from_timestamp(ts));
}

fn total_nanos(j: JulianDay) -> i128 {
    j.day as i128 * NANOS_PER_DAY as i128 + j.nanos_of_day as i128
}

#[test]
fn one_second_step_adds_one_second() {
    let ts: i64 = 1_718_582_399_500;
    let a = timestamp_to_jd(ts).unwrap();
    let b = timestamp_to_jd(ts + 1000).unwrap();
    assert_eq!(b.day, a.day + 1);
    assert_eq!(total_nanos(b) - total_nanos(a), 1_000_000_000);
}

#[test]
fn julian_year_step_adds_365_and_a_quarter_days() {
    let ts: i64 = 1_718_539_200_000;
    let a = timestamp_to_jd(ts).unwrap();
    let b = timestamp_to_jd(ts + 31_557_600_000).unwrap();
    assert_eq!(b, JulianDay { day: a.day + 365, nanos_of_day: a.nanos_of_day + NANOS_PER_DAY / 4 });
}

#[test]
fn last_representable_instant() {
    let j = timestamp_to_jd(8_210_266_876_799_999).unwrap();
    assert_eq!(j.nanos_of_day, NANOS_PER_DAY - 1_000_000);
    let c = civil_from_timestamp(8_210_266_876_799_999).unwrap();
    assert_eq!((c.year, c.month, c.day), (262_142, 12, 31));
    assert_eq!(timestamp_to_jd(8_210_266_876_800_000), Err(TimeError::InvalidTimestamp));
}

#[test]
fn first_representable_instant() {
    let j = timestamp_to_jd(-8_334_601_228_800_000).unwrap();
    assert_eq!(j, JulianDay { day: -94_024_704, nanos_of_day: 0 });
    let c = civil_from_timestamp(-8_334_601_228_800_000).unwrap();
    assert_eq!((c.year, c.month, c.day), (-262_143, 1, 1));
    assert_eq!(civil_from_timestamp(-8_334_601_228_800_001), Err(TimeError::InvalidTimestamp));
}

#[test]
fn extreme_timestamps_are_invalid() {
    assert_eq!(timestamp_to_jd(i64::MAX), Err(TimeError::InvalidTimestamp));
    assert_eq!(timestamp_to_jd(i64::MIN), Err(TimeError::InvalidTimestamp));
}

fn ymd(timestamp_ms: i64) -> (i32, u32, u32) {
    let c = civil_from_timestamp(timestamp_ms).unwrap();
    (c.year, c.month, c.day)
}

#[test]
fn leap_days_are_decoded() {
    assert_eq!(ymd(1_709_164_800_000), (2024, 2, 29));
    assert_eq!(ymd(951_782_400_000), (2000, 2, 29));
    assert_eq!(timestamp_to_jd(1_709_164_800_000).unwrap().day, 2_460_370);
}

#[test]
fn century_without_leap_day() {
    assert_eq!(ymd(4_107_456_000_000), (2100, 2, 28));
    assert_eq!(ymd(4_107_456_000_000 + 86_400_000), (2100, 3, 1));
    assert_eq!(julian_day_number(2100, 3, 1), julian_day_number(2100, 2, 28) + 1);
}

#[test]
fn year_before_common_era() {
    assert_eq!(ymd(-62_167_305_600_000), (-1, 12, 31));
    assert_eq!(julian_day_number(-1, 12, 31), 1_721_059);
}
