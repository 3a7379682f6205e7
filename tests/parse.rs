use ceilometer::record::{parse_height, parse_line, parse_u32, LineError};
use ceilometer::stamp::{Date, Stamp};

fn stamp(year: i32, month: u8, day: u8, hour: u8, minute: u8, second: u8) -> Stamp {
    Stamp { date: Date { year, month, day }, hour, minute, second }
}

fn stamp_via_time(text: &str) -> Stamp {
    let format = time::format_description::parse_borrowed::<1>(
        "[year]-[month]-[day] [hour]:[minute]:[second]",
    )
    .unwrap();
    let dt = time::PrimitiveDateTime::parse(text, &format).unwrap();
    stamp(dt.year(), dt.month() as u8, dt.day(), dt.hour(), dt.minute(), dt.second())
}

#[test]
fn test_measurement() {
    let str = "2020-12-30 16:11:25,230 cloudLowSig 1609344685.231 330";
    let (time, height) = parse_line(str).unwrap();
    assert_eq!(height, 330);
    assert_eq!(time, stamp_via_time("2020-12-30 16:11:25"));
    assert_eq!(time, stamp(2020, 12, 30, 16, 11, 25));

    let str = "2020-12-31 10:58:35,241 cloudLowSig 1609412315.242 None";
    let (time, height) = parse_line(str).unwrap();
    assert_eq!(height, 10000);
    assert_eq!(time, stamp_via_time("2020-12-31 10:58:35"));
    assert_eq!(time, stamp(2020, 12, 31, 10, 58, 35));
}

#[test]
fn parsing_the_same_line_twice_gives_the_same_pair() {
    let line = "2021-03-04 05:06:07,000 cloudLowSig 1614834367.000 1234";
    assert_eq!(parse_line(line), parse_line(line));
    let line = "2021-03-04 05:06:07,000 cloudLowSig 1614834367.000 None";
    assert_eq!(parse_line(line), parse_line(line));
}

#[test]
fn missing_height_field_gives_sentinel() {
    let (_, height) = parse_line("2020-12-30 16:11:25,230 cloudLowSig 1609344685.231").unwrap();
    assert_eq!(height, 10000);
    assert_eq!(parse_height("2020-12-30 16:11:25"), 10000);
}

#[test]
fn height_field_numbers() {
    assert_eq!(parse_height("a b c d +12"), 12);
    assert_eq!(parse_height("a b c d -5"), 10000);
    assert_eq!(parse_height("a b c d 4294967295"), 4294967295);
    assert_eq!(parse_height("a b c d 4294967296"), 10000);
    assert_eq!(parse_height("a b c d 12x"), 10000);
    assert_eq!(parse_height("  a\tb  c\u{3000}d 77 extra"), 77);
    assert_eq!(parse_height("a b c d e"), 10000);
}

#[test]
fn decimal_u32() {
    assert_eq!(parse_u32("0"), Some(0));
    assert_eq!(parse_u32("007"), Some(7));
    assert_eq!(parse_u32("+"), None);
    assert_eq!(parse_u32(""), None);
    assert_eq!(parse_u32("1 2"), None);
    assert_eq!(parse_u32("99999999999999999999"), None);
}

#[test]
fn bad_timestamps_are_errors() {
    assert_eq!(parse_line("2020-12-30 16:11"), Err(LineError::BadTimestamp));
    assert_eq!(parse_line("2021-02-29 10:00:00,0 x y 5"), Err(LineError::BadTimestamp));
    assert_eq!(parse_line("2020-13-01 10:00:00,0 x y 5"), Err(LineError::BadTimestamp));
    assert_eq!(parse_line("2020-12-01 24:00:00,0 x y 5"), Err(LineError::BadTimestamp));
    assert_eq!(parse_line("2020-12-01 10:00:60,0 x y 5"), Err(LineError::BadTimestamp));
    assert_eq!(parse_line("2020/12/01 10:00:00,0 x y 5"), Err(LineError::BadTimestamp));
    assert_eq!(parse_line(""), Err(LineError::BadTimestamp));
}

#[test]
fn leap_day_is_accepted() {
    let (time, height) = parse_line("2020-02-29 23:59:59,0 x y 42").unwrap();
    assert_eq!(time, stamp(2020, 2, 29, 23, 59, 59));
    assert_eq!(height, 42);
}
