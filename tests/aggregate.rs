use ceilometer::aggregate::{aggregate, Aggregator, Measurement, MAX_HEIGHT};
use ceilometer::record::parse_line;
use ceilometer::stamp::{Date, Stamp};
use ceilometer::summary::summarize;

fn at(day: u8, hour: u8, minute: u8, height: u32) -> Measurement {
    Measurement {
        stamp: Stamp { date: Date { year: 2020, month: 12, day }, hour, minute, second: 0 },
        height,
    }
}

#[test]
fn one_window_per_hour() {
    let ms = vec![
        at(30, 10, 0, 500),
        at(30, 10, 10, 100),
        at(30, 10, 20, 300),
        at(30, 11, 0, 900),
        at(30, 11, 30, 700),
        at(30, 13, 5, 42),
    ];
    let days = aggregate(&ms);
    assert_eq!(days.len(), 1);
    assert_eq!(days[0].date, Date { year: 2020, month: 12, day: 30 });
    assert_eq!(days[0].heights[10], 300);
    assert_eq!(days[0].heights[11], 900);
    assert_eq!(days[0].heights[12], MAX_HEIGHT);
    assert_eq!(days[0].heights[13], 42);
    assert_eq!(days[0].heights[0], MAX_HEIGHT);
}

#[test]
fn day_rollover_closes_window_first() {
    let ms = vec![at(30, 22, 0, 300), at(30, 23, 0, 250), at(30, 23, 30, 150), at(31, 0, 0, 800)];
    let days = aggregate(&ms);
    assert_eq!(days.len(), 2);
    assert_eq!(days[0].date.day, 30);
    assert_eq!(days[1].date.day, 31);
    assert_eq!(days[0].heights[22], 300);
    assert_eq!(days[0].heights[23], 250);
    assert_eq!(days[1].heights[0], 800);
}

#[test]
fn trailing_window_is_closed() {
    let mut agg = Aggregator::new();
    agg.push(at(1, 5, 0, 70));
    agg.push(at(1, 5, 1, 60));
    let days = agg.finish();
    assert_eq!(days.len(), 1);
    assert_eq!(days[0].heights[5], 70);
}

#[test]
fn empty_stream_gives_no_days() {
    assert_eq!(aggregate(&vec![]).len(), 0);
    assert_eq!(Aggregator::new().finish().len(), 0);
}

#[test]
fn end_to_end_two_hours_then_next_date() {
    let lines = [
        "2020-12-30 16:00:05,000 cloudLowSig 1609344005.000 400",
        "2020-12-30 16:20:05,000 cloudLowSig 1609345205.000 200",
        "2020-12-30 16:40:05,000 cloudLowSig 1609346405.000 None",
        "2020-12-30 17:00:05,000 cloudLowSig 1609347605.000 150",
        "2020-12-30 17:30:05,000 cloudLowSig 1609349405.000 120",
        "2020-12-31 00:10:00,000 cloudLowSig 1609373400.000 3000",
    ];
    let mut ms = Vec::new();
    for line in lines.iter() {
        let (stamp, height) = parse_line(line).unwrap();
        ms.push(Measurement { stamp, height });
    }
    let days = aggregate(&ms);
    assert_eq!(days.len(), 2);
    assert_eq!(days[0].heights[16], 400);
    assert_eq!(days[0].heights[17], 150);
    let s = summarize(&days);
    assert_eq!(s.lines.len(), 2);
    assert_eq!(s.lines[0].date, Date { year: 2020, month: 12, day: 30 });
    assert_eq!(s.lines[0].feet, 492);
    assert_eq!(s.lines[1].date, Date { year: 2020, month: 12, day: 31 });
    assert_eq!(s.lines[1].feet, 9842);
    assert_eq!(s.below, vec![1, 1, 1, 0, 0, 0]);
}
