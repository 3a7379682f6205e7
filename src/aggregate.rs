//! The streaming group-by: measurements are folded into hour windows, and each
//! closed window's median is stored into the profile of the day that owns it.

use vstd::prelude::*;
use vstd::array::*;
use crate::median::{median, upper_median};
use crate::stamp::{Date, Stamp};

verus! {

/// The height that stands for "no usable reading": it acts as a very high
/// ceiling under the minimum taken over a day.
pub const MAX_HEIGHT: u32 = 10000;

/// One parsed reading: when it was taken and the ceiling height in meters.
#[derive(Clone, Copy, Debug, PartialEq, Eq, Structural)]
pub struct Measurement {
    pub stamp: Stamp,
    pub height: u32,
}

/// One calendar date's result: a representative height for each clock hour.
#[derive(Clone, Copy, Debug)]
pub struct Day {
    pub date: Date,
    pub heights: [u32; 24],
}

/// The mathematical content of a `Day`.
pub struct DayModel {
    pub date: Date,
    pub heights: Seq<u32>,
}

impl View for Day {
    type V = DayModel;

    open spec fn view(&self) -> DayModel {
        DayModel { date: self.date, heights: self.heights@ }
    }
}

/// The readings of one clock hour that is still open.
pub struct Window {
    pub hour: u8,
    pub heights: Vec<u32>,
}

/// The mathematical content of a `Window`.
pub struct WindowModel {
    pub hour: u8,
    pub heights: Seq<u32>,
}

impl View for Window {
    type V = WindowModel;

    open spec fn view(&self) -> WindowModel {
        WindowModel { hour: self.hour, heights: self.heights@ }
    }
}

/// The state of the fold: the open day, the open window, and the days that
/// are finished.
pub struct AggState {
    pub day: Option<DayModel>,
    pub window: Option<WindowModel>,
    pub days: Seq<DayModel>,
}

/// The contents of a sequence of days.
pub open spec fn days_view(v: Seq<Day>) -> Seq<DayModel> {
    v.map_values(|d: Day| d@)
}

/// A new day: every hour holds the sentinel.
pub open spec fn fresh_day(date: Date) -> DayModel {
    DayModel { date, heights: Seq::new(24, |_h: int| MAX_HEIGHT) }
}

/// Closing a window stores its median into the day's slot for its hour.
pub open spec fn close_window(d: DayModel, w: WindowModel) -> DayModel {
    DayModel { date: d.date, heights: d.heights.update(w.hour as int, upper_median(w.heights)) }
}

/// Nothing open, nothing finished.
pub open spec fn initial_state() -> AggState {
    AggState { day: None, window: None, days: Seq::empty() }
}

/// The open day with its open window closed into it, if there is one.
pub open spec fn closed_day(s: AggState) -> Option<DayModel> {
    match (s.day, s.window) {
        (Some(d), Some(w)) => Some(close_window(d, w)),
        (d, _) => d,
    }
}

/// One transition of the fold on an incoming measurement.
///
/// On a new date or a new hour the open window is closed into the open day
/// first; then, on a new date, that day is finished and a fresh one opened;
/// then a window for the measurement's hour is opened. The measurement joins
/// the open window.
pub open spec fn step(s: AggState, m: Measurement) -> AggState {
    let new_day = s.day is None || s.day->0.date != m.stamp.date;
    let new_hour = s.window is None || s.window->0.hour != m.stamp.hour;
    if new_day {
        AggState {
            day: Some(fresh_day(m.stamp.date)),
            window: Some(WindowModel { hour: m.stamp.hour, heights: seq![m.height] }),
            days: match closed_day(s) {
                Some(d) => s.days.push(d),
                None => s.days,
            },
        }
    } else if new_hour {
        AggState {
            day: closed_day(s),
            window: Some(WindowModel { hour: m.stamp.hour, heights: seq![m.height] }),
            days: s.days,
        }
    } else {
        AggState {
            day: s.day,
            window: Some(WindowModel { hour: s.window->0.hour, heights: s.window->0.heights.push(m.height) }),
            days: s.days,
        }
    }
}

/// End of stream: the trailing window is closed and the open day finished.
pub open spec fn finish_state(s: AggState) -> Seq<DayModel> {
    match closed_day(s) {
        Some(d) => s.days.push(d),
        None => s.days,
    }
}

/// The state after folding a whole sequence of measurements.
pub open spec fn run(ms: Seq<Measurement>) -> AggState
    decreases ms.len(),
{
    if ms.len() == 0 {
        initial_state()
    } else {
        step(run(ms.drop_last()), ms.last())
    }
}

/// The finished days of a whole stream, in order of first appearance.
pub open spec fn days_of(ms: Seq<Measurement>) -> Seq<DayModel> {
    finish_state(run(ms))
}

/// Every hour of a measurement is a clock hour.
pub open spec fn hours_valid(ms: Seq<Measurement>) -> bool {
    forall|i: int| 0 <= i < ms.len() ==> ms[i].stamp.hour < 24
}

/// Stores the median of a window into the day's slot for the window's hour.
fn close_window_into(day: &mut Day, w: &Window)
    requires
        w.hour < 24,
        w.heights.len() > 0,
    ensures
        final(day)@ == close_window(old(day)@, w@),
{
    let m = median(&w.heights);
    day.heights[w.hour as usize] = m;
}

/// Folds measurements into days, one at a time.
pub struct Aggregator {
    day: Option<Day>,
    window: Option<Window>,
    days: Vec<Day>,
}

impl Aggregator {
    /// What the aggregator holds, as values.
    pub closed spec fn state(&self) -> AggState {
        AggState {
            day: match self.day {
                Some(d) => Some(d@),
                None => None,
            },
            window: match self.window {
                Some(w) => Some(w@),
                None => None,
            },
            days: days_view(self.days@),
        }
    }

    /// A window is open exactly while a day is, for a clock hour, and holds at
    /// least one reading.
    pub closed spec fn wf(&self) -> bool {
        &&& self.day is Some <==> self.window is Some
        &&& self.window matches Some(w) ==> w.hour < 24 && w.heights.len() > 0
    }

    /// An aggregator that has seen nothing.
    pub fn new() -> (r: Self)
        ensures
            r.wf(),
            r.state() == initial_state(),
    {
        let r = Aggregator { day: None, window: None, days: Vec::new() };
        assert(days_view(r.days@) =~= Seq::empty());
        r
    }

    /// Takes in the next measurement of the stream.
    pub fn push(&mut self, m: Measurement)
        requires
            old(self).wf(),
            m.stamp.hour < 24,
        ensures
            final(self).wf(),
            final(self).state() == step(old(self).state(), m),
    {
        let new_day = match &self.day {
            None => true,
            Some(d) => d.date != m.stamp.date,
        };
        let new_hour = match &self.window {
            None => true,
            Some(w) => w.hour != m.stamp.hour,
        };
        if new_day || new_hour {
            let mut closed = self.day;
            let old_window = self.window.take();
            if let Some(d) = &mut closed {
                if let Some(w) = &old_window {
                    close_window_into(d, w);
                }
            }
            if new_day {
                if let Some(d) = closed {
                    self.days.push(d);
                    proof {
                        assert(days_view(self.days@) =~= days_view(old(self).days@).push(d@));
                    }
                }
                self.day = Some(Day { date: m.stamp.date, heights: [MAX_HEIGHT; 24] });
                proof {
                    assert(self.day->0@.heights =~= fresh_day(m.stamp.date).heights);
                }
            } else {
                self.day = closed;
            }
            let mut heights: Vec<u32> = Vec::new();
            heights.push(m.height);
            self.window = Some(Window { hour: m.stamp.hour, heights });
            proof {
                assert(self.window->0@.heights =~= seq![m.height]);
            }
        } else {
            let mut w = self.window.take().unwrap();
            w.heights.push(m.height);
            self.window = Some(w);
        }
    }

    /// Ends the stream: closes the trailing window into the open day, finishes
    /// that day, and hands out every finished day.
    pub fn finish(self) -> (r: Vec<Day>)
        requires
            self.wf(),
        ensures
            days_view(r@) == finish_state(self.state()),
    {
        let mut days = self.days;
        if let Some(mut d) = self.day {
            if let Some(w) = &self.window {
                close_window_into(&mut d, w);
            }
            days.push(d);
            proof {
                assert(days_view(days@) =~= days_view(self.days@).push(d@));
            }
        }
        days
    }
}

/// Folds a whole stream of measurements into its finished days.
pub fn aggregate(ms: &Vec<Measurement>) -> (r: Vec<Day>)
    requires
        hours_valid(ms@),
    ensures
        days_view(r@) == days_of(ms@),
{
    let mut agg = Aggregator::new();
    let mut i: usize = 0;
    while i < ms.len()
        invariant
            i <= ms.len(),
            hours_valid(ms@),
            agg.wf(),
            agg.state() == run(ms@.take(i as int)),
        decreases ms.len() - i,
    {
        proof {
            assert(ms@.take(i + 1).drop_last() =~= ms@.take(i as int));
        }
        agg.push(ms[i]);
        i = i + 1;
    }
    assert(ms@.take(ms.len() as int) =~= ms@);
    agg.finish()
}

/// The heights of the measurements taken in clock hour `h`, in stream order.
pub open spec fn hour_heights(ms: Seq<Measurement>, h: u8) -> Seq<u32>
    decreases ms.len(),
{
    if ms.len() == 0 {
        seq![]
    } else {
        let r = hour_heights(ms.drop_last(), h);
        if ms.last().stamp.hour == h { r.push(ms.last().height) } else { r }
    }
}

/// The value a day's profile should hold for hour `h`: the median of that
/// hour's measurements, or the sentinel where there are none.
pub open spec fn hour_value(ms: Seq<Measurement>, h: int) -> u32 {
    let hs = hour_heights(ms, h as u8);
    if hs.len() > 0 { upper_median(hs) } else { MAX_HEIGHT }
}

/// All measurements are on one date.
pub open spec fn one_date(ms: Seq<Measurement>) -> bool {
    forall|i: int| 0 <= i < ms.len() ==> (#[trigger] ms[i]).stamp.date == ms[0].stamp.date
}

/// Hours never go back.
pub open spec fn hours_ordered(ms: Seq<Measurement>) -> bool {
    forall|i: int, j: int| 0 <= i <= j < ms.len() ==> ms[i].stamp.hour <= ms[j].stamp.hour
}

proof fn lemma_hour_heights_absent(ms: Seq<Measurement>, h: u8)
    requires
        forall|i: int| 0 <= i < ms.len() ==> (#[trigger] ms[i]).stamp.hour < h,
    ensures
        hour_heights(ms, h).len() == 0,
    decreases ms.len(),
{
    if ms.len() > 0 {
        lemma_hour_heights_absent(ms.drop_last(), h);
    }
}

proof fn lemma_one_date_run(ms: Seq<Measurement>)
    requires
        ms.len() > 0,
        hours_valid(ms),
        one_date(ms),
        hours_ordered(ms),
    ensures
        run(ms).days == Seq::<DayModel>::empty(),
        run(ms).day matches Some(d) && d.date == ms[0].stamp.date && d.heights.len() == 24
            && forall|h: int|
            0 <= h < 24 && h != ms.last().stamp.hour ==> d.heights[h] == #[trigger] hour_value(
                ms,
                h,
            ),
        run(ms).window == Some(
            WindowModel { hour: ms.last().stamp.hour, heights: hour_heights(ms, ms.last().stamp.hour) },
        ),
    decreases ms.len(),
{
    let m = ms.last();
    let c = m.stamp.hour;
    let p = ms.drop_last();
    assert(hour_heights(p, c) == hour_heights(ms.drop_last(), c));
    if p.len() == 0 {
        assert(hour_heights(p, c) =~= seq![]);
        assert forall|h: int| 0 <= h < 24 && h != c implies fresh_day(m.stamp.date).heights[h]
            == #[trigger] hour_value(ms, h) by {
            assert(hour_heights(p, h as u8) =~= seq![]);
        }
    } else {
        assert(hours_valid(p));
        assert(one_date(p)) by {
            assert forall|i: int| 0 <= i < p.len() implies (#[trigger] p[i]).stamp.date == p[0].stamp.date by {
                assert(p[i] == ms[i]);
                assert(p[0] == ms[0]);
            }
        }
        assert(hours_ordered(p));
        lemma_one_date_run(p);
        let c0 = p.last().stamp.hour;
        assert(ms[0] == p[0]);
        assert(m.stamp.date == ms[0].stamp.date);
        assert(c0 <= c);
        let d = run(p).day->0;
        if c0 < c {
            assert forall|i: int| 0 <= i < p.len() implies (#[trigger] p[i]).stamp.hour < c by {
                assert(p[i] == ms[i]);
            }
            lemma_hour_heights_absent(p, c);
            assert(hour_heights(ms, c) =~= seq![m.height]);
            assert(hour_heights(p, c0).len() > 0);
            assert forall|h: int| 0 <= h < 24 && h != c implies close_window(
                d,
                run(p).window->0,
            ).heights[h] == #[trigger] hour_value(ms, h) by {
                assert(hour_heights(ms, h as u8) == hour_heights(p, h as u8));
                if h != c0 {
                    assert(d.heights[h] == hour_value(p, h));
                }
            }
        } else {
            assert forall|h: int| 0 <= h < 24 && h != c implies d.heights[h]
                == #[trigger] hour_value(ms, h) by {
                assert(hour_heights(ms, h as u8) == hour_heights(p, h as u8));
                assert(d.heights[h] == hour_value(p, h));
            }
        }
    }
}

/// On one date, with hours in order, each clock hour's slot of the day holds
/// the median of that hour's measurements alone, and an hour without
/// measurements keeps the sentinel; the stream gives exactly that one day.
pub proof fn lemma_hour_windows(ms: Seq<Measurement>)
    requires
        ms.len() > 0,
        hours_valid(ms),
        one_date(ms),
        hours_ordered(ms),
    ensures
        days_of(ms) == seq![
            DayModel { date: ms[0].stamp.date, heights: Seq::new(24, |h: int| hour_value(ms, h)) },
        ],
{
    lemma_one_date_run(ms);
    let c = ms.last().stamp.hour;
    let d = close_window(run(ms).day->0, run(ms).window->0);
    assert(hour_heights(ms, c).len() > 0);
    assert(d.heights =~= Seq::new(24, |h: int| hour_value(ms, h)));
    assert(days_of(ms) =~= seq![d]);
}

/// A measurement on a new date first closes the open window into the open
/// day, then finishes that day, and opens a fresh day and window.
pub proof fn lemma_day_rollover(s: AggState, m: Measurement)
    requires
        s.day is Some,
        s.window is Some,
        s.day->0.date != m.stamp.date,
    ensures
        step(s, m).days == s.days.push(close_window(s.day->0, s.window->0)),
        step(s, m).day == Some(fresh_day(m.stamp.date)),
        step(s, m).window == Some(WindowModel { hour: m.stamp.hour, heights: seq![m.height] }),
{
}

proof fn lemma_same_date_run(ms: Seq<Measurement>)
    requires
        ms.len() > 0,
        one_date(ms),
    ensures
        run(ms).days == Seq::<DayModel>::empty(),
        run(ms).day matches Some(d) && d.date == ms[0].stamp.date,
        run(ms).window is Some,
    decreases ms.len(),
{
    let p = ms.drop_last();
    if p.len() > 0 {
        assert(one_date(p)) by {
            assert forall|i: int| 0 <= i < p.len() implies (#[trigger] p[i]).stamp.date == p[0].stamp.date by {
                assert(p[i] == ms[i]);
                assert(p[0] == ms[0]);
            }
        }
        lemma_same_date_run(p);
        assert(p[0] == ms[0]);
        assert(ms.last() == ms[ms.len() - 1]);
        assert(ms[ms.len() - 1].stamp.date == ms[0].stamp.date);
    } else {
        assert(run(p) == initial_state());
        assert(ms[0] == ms.last());
    }
}

proof fn lemma_second_date_run(a: Seq<Measurement>, b: Seq<Measurement>, k: int)
    requires
        a.len() > 0,
        one_date(a),
        one_date(b),
        0 < k <= b.len(),
        a[0].stamp.date != b[0].stamp.date,
    ensures
        run(a + b.take(k)).days == seq![closed_day(run(a))->0],
        run(a + b.take(k)).day matches Some(d) && d.date == b[0].stamp.date,
        run(a + b.take(k)).window is Some,
    decreases k,
{
    let ms = a + b.take(k);
    assert(ms.drop_last() =~= a + b.take(k - 1));
    assert(ms.last() == b[k - 1]);
    assert(b[k - 1].stamp.date == b[0].stamp.date);
    if k == 1 {
        assert(a + b.take(0) =~= a);
        lemma_same_date_run(a);
    } else {
        lemma_second_date_run(a, b, k - 1);
    }
}

/// A stream over two dates gives two days in order of first appearance, and
/// the first is the day the first date's measurements give on their own, its
/// last window closed into it.
pub proof fn lemma_two_dates(a: Seq<Measurement>, b: Seq<Measurement>)
    requires
        a.len() > 0,
        b.len() > 0,
        one_date(a),
        one_date(b),
        a[0].stamp.date != b[0].stamp.date,
    ensures
        days_of(a + b).len() == 2,
        days_of(a + b)[0] == days_of(a)[0],
        days_of(a + b)[0].date == a[0].stamp.date,
        days_of(a + b)[1].date == b[0].stamp.date,
{
    lemma_same_date_run(a);
    lemma_second_date_run(a, b, b.len() as int);
    assert(b.take(b.len() as int) =~= b);
}

} // verus!
