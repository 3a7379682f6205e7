use ceilometer::aggregate::{Day, MAX_HEIGHT};
use ceilometer::stamp::Date;
use ceilometer::summary::{day_minimum, mtof, summarize, threshold_counts};

#[test]
fn meters_to_feet_truncates() {
    assert_eq!(mtof(1000), 3280);
    assert_eq!(mtof(0), 0);
    assert_eq!(mtof(1), 3);
    assert_eq!(mtof(10000), 32808);
    assert_eq!(mtof(61), 200);
}

#[test]
fn meters_to_feet_saturates() {
    assert_eq!(mtof(u32::MAX), u32::MAX);
}

#[test]
fn nested_threshold_counts() {
    assert_eq!(threshold_counts(&vec![150, 350, 1500, 2500]), vec![3, 2, 2, 2, 1, 1]);
    assert_eq!(threshold_counts(&vec![]), vec![0, 0, 0, 0, 0, 0]);
    assert_eq!(threshold_counts(&vec![2000, 200, 199]), vec![2, 2, 2, 2, 2, 1]);
}

#[test]
fn day_minimum_takes_smallest_slot() {
    let mut heights = [MAX_HEIGHT; 24];
    assert_eq!(day_minimum(&Day { date: Date { year: 2021, month: 1, day: 1 }, heights }), 10000);
    heights[23] = 45;
    heights[3] = 60;
    assert_eq!(day_minimum(&Day { date: Date { year: 2021, month: 1, day: 1 }, heights }), 45);
}

#[test]
fn summary_lines_and_counts() {
    let d1 = Date { year: 2021, month: 1, day: 1 };
    let d2 = Date { year: 2021, month: 1, day: 2 };
    let mut h1 = [MAX_HEIGHT; 24];
    h1[5] = 100;
    let h2 = [MAX_HEIGHT; 24];
    let s = summarize(&vec![Day { date: d1, heights: h1 }, Day { date: d2, heights: h2 }]);
    assert_eq!(s.lines.len(), 2);
    assert_eq!(s.lines[0].date, d1);
    assert_eq!(s.lines[0].feet, 328);
    assert_eq!(s.lines[1].date, d2);
    assert_eq!(s.lines[1].feet, 32808);
    assert_eq!(s.below, vec![1, 1, 1, 1, 0, 0]);
}

#[test]
fn summary_counts_four_days_nested() {
    let minima = [46u32, 107, 458, 763];
    let mut days = Vec::new();
    for (i, m) in minima.iter().enumerate() {
        let mut heights = [MAX_HEIGHT; 24];
        heights[12] = *m;
        days.push(Day { date: Date { year: 2021, month: 3, day: (i + 1) as u8 }, heights });
    }
    let s = summarize(&days);
    let feet: Vec<u32> = s.lines.iter().map(|l| l.feet).collect();
    assert_eq!(feet, vec![150, 351, 1502, 2503]);
    assert_eq!(s.lines.len(), 4);
    assert_eq!(s.below, vec![3, 2, 2, 2, 1, 1]);
}
