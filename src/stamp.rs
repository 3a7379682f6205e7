//! Calendar dates and clock timestamps as plain values.

use vstd::prelude::*;

verus! {

/// A calendar date in the proleptic Gregorian calendar.
#[derive(Clone, Copy, Debug, PartialEq, Eq, Structural)]
pub struct Date {
    pub year: i32,
    pub month: u8,
    pub day: u8,
}

/// A date together with a time of day, to the second.
#[derive(Clone, Copy, Debug, PartialEq, Eq, Structural)]
pub struct Stamp {
    pub date: Date,
    pub hour: u8,
    pub minute: u8,
    pub second: u8,
}

pub open spec fn is_digit(c: char) -> bool {
    '0' <= c && c <= '9'
}

pub open spec fn digit_value(c: char) -> nat {
    ((c as u32) - ('0' as u32)) as nat
}

/// The number written by the two digits at `i` and `i + 1`.
pub open spec fn two_digits(t: Seq<char>, i: int) -> nat {
    10 * digit_value(t[i]) + digit_value(t[i + 1])
}

/// The number written by the four digits from `i` on.
pub open spec fn four_digits(t: Seq<char>, i: int) -> nat {
    100 * two_digits(t, i) + two_digits(t, i + 2)
}

/// `t` has the shape `YYYY-MM-DD HH:MM:SS`, with ASCII digits where the
/// letters stand.
pub open spec fn stamp_shape(t: Seq<char>) -> bool {
    &&& t.len() == 19
    &&& t[4] == '-' && t[7] == '-' && t[10] == ' ' && t[13] == ':' && t[16] == ':'
    &&& forall|i: int|
        0 <= i < 19 && i != 4 && i != 7 && i != 10 && i != 13 && i != 16 ==> is_digit(
            #[trigger] t[i],
        )
}

/// The fields that a text of the shape `YYYY-MM-DD HH:MM:SS` writes.
pub open spec fn decode_stamp(t: Seq<char>) -> Stamp {
    Stamp {
        date: Date {
            year: four_digits(t, 0) as i32,
            month: two_digits(t, 5) as u8,
            day: two_digits(t, 8) as u8,
        },
        hour: two_digits(t, 11) as u8,
        minute: two_digits(t, 14) as u8,
        second: two_digits(t, 17) as u8,
    }
}

pub open spec fn is_leap_year(y: int) -> bool {
    (y % 4 == 0 && y % 100 != 0) || y % 400 == 0
}

pub open spec fn days_in_month(y: int, m: int) -> int {
    if m == 2 {
        if is_leap_year(y) { 29 } else { 28 }
    } else if m == 4 || m == 6 || m == 9 || m == 11 {
        30
    } else {
        31
    }
}

pub open spec fn valid_date(d: Date) -> bool {
    1 <= d.month <= 12 && 1 <= d.day <= days_in_month(d.year as int, d.month as int)
}

/// A real calendar date and a time of day without leap second.
pub open spec fn valid_stamp(s: Stamp) -> bool {
    valid_date(s.date) && s.hour < 24 && s.minute < 60 && s.second < 60
}

/// `t` is exactly the zero-padded text of a valid date and time.
pub open spec fn is_stamp_text(t: Seq<char>) -> bool {
    stamp_shape(t) && valid_stamp(decode_stamp(t))
}

/// Relies on time's `PrimitiveDateTime::parse` with the format description
/// `[year]-[month]-[day] [hour]:[minute]:[second]`: with the default zero
/// padding each field takes exactly its number of ASCII digits, the literals
/// must match, no trailing input is allowed, and the date and time must be
/// valid (no leap second); the fields are the numbers the digits write.
/// The year may carry a sign, which takes a twentieth character: on exactly
/// nineteen characters there is none.
#[verifier::external_body]
pub(crate) fn parse_stamp(text: &str) -> (r: Option<Stamp>)
    requires
        text@.len() == 19,
    ensures
        r is Some <==> is_stamp_text(text@),
        r matches Some(st) ==> st == decode_stamp(text@),
{
    let format = time::format_description::parse_borrowed::<1>(
        "[year]-[month]-[day] [hour]:[minute]:[second]",
    ).ok()?;
    let dt = time::PrimitiveDateTime::parse(text, &format).ok()?;
    let date = Date { year: dt.year(), month: dt.month() as u8, day: dt.day() };
    Some(Stamp { date, hour: dt.hour(), minute: dt.minute(), second: dt.second() })
}

} // verus!
