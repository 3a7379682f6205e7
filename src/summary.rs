//! Reduction of finished days to minimum ceilings in feet, and the nested
//! threshold counts over them.

use vstd::prelude::*;
use crate::aggregate::{Day, DayModel, days_view};
use crate::median::count_lt;
use crate::stamp::Date;

verus! {

/// Feet per meter, as a fraction: 3.2808399 = 32808399 / 10000000.
pub const FEET_PER_METER_NUM: u64 = 32808399;

pub const FEET_PER_METER_DEN: u64 = 10000000;

/// `floor(m * 3.2808399)`, computed exactly.
pub open spec fn feet_of(m: nat) -> nat {
    m * FEET_PER_METER_NUM as nat / FEET_PER_METER_DEN as nat
}

/// A value clamped to the range of `u32`.
pub open spec fn clamp_u32(x: nat) -> u32 {
    if x > u32::MAX { u32::MAX } else { x as u32 }
}

/// Converts meters to feet, truncating the fraction; a result that does not
/// fit in `u32` saturates.
pub fn mtof(m: u32) -> (r: u32)
    ensures
        r == clamp_u32(feet_of(m as nat)),
{
    assert((m as u64) * 32808399 <= (u32::MAX as u64) * 32808399) by (nonlinear_arith);
    let f: u64 = (m as u64) * FEET_PER_METER_NUM / FEET_PER_METER_DEN;
    if f > u32::MAX as u64 {
        u32::MAX
    } else {
        f as u32
    }
}

/// The smallest value of a non-empty sequence.
pub open spec fn seq_min(s: Seq<u32>) -> u32
    decreases s.len(),
{
    if s.len() <= 1 {
        s[0]
    } else {
        let r = seq_min(s.drop_last());
        if s.last() < r { s.last() } else { r }
    }
}

/// The daily minimum ceiling of a day profile, in feet.
pub open spec fn day_feet(d: DayModel) -> u32 {
    clamp_u32(feet_of(seq_min(d.heights) as nat))
}

/// The ceiling thresholds in feet, loosest first; they are nested.
pub open spec fn thresholds() -> Seq<u32> {
    seq![2000u32, 1000, 500, 400, 300, 200]
}

/// The smallest of the hourly heights of a day.
pub fn day_minimum(d: &Day) -> (r: u32)
    ensures
        r == seq_min(d.heights@),
{
    let mut r: u32 = d.heights[0];
    let mut i: usize = 1;
    while i < 24
        invariant
            1 <= i <= 24,
            d.heights@.len() == 24,
            r == seq_min(d.heights@.take(i as int)),
        decreases 24 - i,
    {
        proof {
            assert(d.heights@.take(i + 1).drop_last() =~= d.heights@.take(i as int));
        }
        if d.heights[i] < r {
            r = d.heights[i];
        }
        i = i + 1;
    }
    assert(d.heights@.take(24) =~= d.heights@);
    r
}

/// One line of the report: a date and its minimum ceiling in feet.
#[derive(Clone, Copy, Debug, PartialEq, Eq, Structural)]
pub struct DayLine {
    pub date: Date,
    pub feet: u32,
}

/// The report over all days: one line per day, in day order, and for each
/// threshold the number of days whose minimum ceiling lies below it.
pub struct Summary {
    pub lines: Vec<DayLine>,
    pub below: Vec<usize>,
}

/// For each threshold, the number of values strictly below it.
pub fn threshold_counts(feet: &Vec<u32>) -> (r: Vec<usize>)
    ensures
        r@.len() == 6,
        forall|k: int| 0 <= k < 6 ==> r@[k] == count_lt(feet@, #[trigger] thresholds()[k]),
{
    let limits: Vec<u32> = vec![2000, 1000, 500, 400, 300, 200];
    assert(limits@ =~= thresholds());
    let mut r: Vec<usize> = vec![0, 0, 0, 0, 0, 0];
    let mut i: usize = 0;
    while i < feet.len()
        invariant
            i <= feet.len(),
            limits@ == thresholds(),
            r@.len() == 6,
            forall|k: int| 0 <= k < 6 ==> r@[k] == count_lt(feet@.take(i as int), #[trigger] thresholds()[k]),
        decreases feet.len() - i,
    {
        proof {
            assert(feet@.take(i + 1).drop_last() =~= feet@.take(i as int));
            assert forall|k: int| 0 <= k < 6 implies r@[k] <= i by {
                lemma_count_lt_le_len(feet@.take(i as int), thresholds()[k]);
            }
            assert(feet@.take(i + 1).last() == feet@[i as int]);
        }
        let f = feet[i];
        let mut k: usize = 0;
        while k < 6
            invariant
                0 <= k <= 6,
                i < feet.len(),
                f == feet@[i as int],
                limits@ == thresholds(),
                r@.len() == 6,
                forall|j: int| 0 <= j < k ==> r@[j] <= i + 1,
                forall|j: int| k <= j < 6 ==> r@[j] <= i,
                forall|j: int|
                    0 <= j < 6 ==> count_lt(feet@.take(i + 1), #[trigger] thresholds()[j])
                        == count_lt(feet@.take(i as int), thresholds()[j]) + if f < thresholds()[j] {
                        1nat
                    } else {
                        0nat
                    },
                forall|j: int| 0 <= j < k ==> r@[j] == count_lt(feet@.take(i + 1), #[trigger] thresholds()[j]),
                forall|j: int| k <= j < 6 ==> r@[j] == count_lt(feet@.take(i as int), #[trigger] thresholds()[j]),
            decreases 6 - k,
        {
            if f < limits[k] {
                let c = r[k];
                r.set(k, c + 1);
            }
            k = k + 1;
        }
        i = i + 1;
    }
    assert(feet@.take(feet.len() as int) =~= feet@);
    r
}

proof fn lemma_count_lt_le_len(s: Seq<u32>, m: u32)
    ensures
        count_lt(s, m) <= s.len(),
    decreases s.len(),
{
    if s.len() > 0 {
        lemma_count_lt_le_len(s.drop_last(), m);
    }
}

/// Reduces each day to its minimum ceiling in feet and counts the days below
/// each threshold.
pub fn summarize(days: &Vec<Day>) -> (r: Summary)
    ensures
        r.lines@.len() == days@.len(),
        forall|i: int|
            0 <= i < days@.len() ==> (#[trigger] r.lines@[i]).date == days@[i].date
                && r.lines@[i].feet == day_feet(days@[i]@),
        r.below@.len() == 6,
        forall|k: int|
            0 <= k < 6 ==> r.below@[k] == count_lt(
                days_view(days@).map_values(|d: DayModel| day_feet(d)),
                #[trigger] thresholds()[k],
            ),
{
    let mut lines: Vec<DayLine> = Vec::new();
    let mut feet: Vec<u32> = Vec::new();
    let mut i: usize = 0;
    while i < days.len()
        invariant
            i <= days.len(),
            lines@.len() == i,
            feet@.len() == i,
            forall|j: int|
                0 <= j < i ==> (#[trigger] lines@[j]).date == days@[j].date && lines@[j].feet
                    == day_feet(days@[j]@) && feet@[j] == lines@[j].feet,
        decreases days.len() - i,
    {
        let f = mtof(day_minimum(&days[i]));
        lines.push(DayLine { date: days[i].date, feet: f });
        feet.push(f);
        i = i + 1;
    }
    assert forall|j: int| 0 <= j < feet@.len() implies feet@[j] == days_view(days@).map_values(
        |d: DayModel| day_feet(d),
    )[j] by {
        assert(lines@[j].feet == day_feet(days@[j]@));
        assert(days_view(days@)[j] == days@[j]@);
    }
    assert(feet@ =~= days_view(days@).map_values(|d: DayModel| day_feet(d)));
    let below = threshold_counts(&feet);
    Summary { lines, below }
}

proof fn lemma_count_lt_mono(s: Seq<u32>, a: u32, b: u32)
    requires
        a <= b,
    ensures
        count_lt(s, a) <= count_lt(s, b),
    decreases s.len(),
{
    if s.len() > 0 {
        lemma_count_lt_mono(s.drop_last(), a, b);
    }
}

/// The threshold counts are nested: a day below a tighter threshold is also
/// below every looser one, so the count below each threshold is at most the
/// count below the one before it, and no count exceeds the number of days.
pub proof fn lemma_nested_counts(feet: Seq<u32>)
    ensures
        forall|k: int|
            0 <= k < 5 ==> count_lt(feet, #[trigger] thresholds()[k + 1]) <= count_lt(
                feet,
                thresholds()[k],
            ),
        forall|k: int| 0 <= k < 6 ==> count_lt(feet, #[trigger] thresholds()[k]) <= feet.len(),
{
    assert forall|k: int| 0 <= k < 5 implies count_lt(feet, #[trigger] thresholds()[k + 1])
        <= count_lt(feet, thresholds()[k]) by {
        lemma_count_lt_mono(feet, thresholds()[k + 1], thresholds()[k]);
    }
    assert forall|k: int| 0 <= k < 6 implies count_lt(feet, #[trigger] thresholds()[k])
        <= feet.len() by {
        lemma_count_lt_le_len(feet, thresholds()[k]);
    }
}

} // verus!
