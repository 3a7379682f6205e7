//! Turning one line of the feed into a timestamp and a height.

use vstd::prelude::*;
use vstd::string::*;
use crate::aggregate::MAX_HEIGHT;
use crate::stamp::{Stamp, decode_stamp, digit_value, is_digit, is_stamp_text, parse_stamp};

verus! {

/// Unicode `White_Space`, the characters that separate fields.
pub open spec fn is_space_spec(c: char) -> bool {
    let u = c as u32;
    (0x9 <= u && u <= 0xd) || u == 0x20 || u == 0x85 || u == 0xa0 || u == 0x1680 || (0x2000 <= u
        && u <= 0x200a) || u == 0x2028 || u == 0x2029 || u == 0x202f || u == 0x205f || u == 0x3000
}

#[verifier::when_used_as_spec(is_space_spec)]
pub fn is_space(c: char) -> (r: bool)
    ensures
        r == is_space_spec(c),
{
    let u = c as u32;
    (0x9 <= u && u <= 0xd) || u == 0x20 || u == 0x85 || u == 0xa0 || u == 0x1680 || (0x2000 <= u
        && u <= 0x200a) || u == 0x2028 || u == 0x2029 || u == 0x202f || u == 0x205f || u == 0x3000
}

/// The fields of `s` that remain, given the characters `cur` of a field
/// already begun.
pub open spec fn split_from(s: Seq<char>, cur: Seq<char>) -> Seq<Seq<char>>
    decreases s.len(),
{
    if s.len() == 0 {
        if cur.len() > 0 { seq![cur] } else { seq![] }
    } else if is_space_spec(s[0]) {
        (if cur.len() > 0 { seq![cur] } else { seq![] }) + split_from(s.drop_first(), seq![])
    } else {
        split_from(s.drop_first(), cur.push(s[0]))
    }
}

/// The maximal runs of non-whitespace characters of `s`, in order.
pub open spec fn fields(s: Seq<char>) -> Seq<Seq<char>> {
    split_from(s, seq![])
}

/// The value written by a sequence of decimal digits.
pub open spec fn digits_value(s: Seq<char>) -> nat
    decreases s.len(),
{
    if s.len() == 0 {
        0
    } else {
        digits_value(s.drop_last()) * 10 + digit_value(s.last())
    }
}

pub open spec fn all_digits(s: Seq<char>) -> bool {
    forall|i: int| 0 <= i < s.len() ==> is_digit(#[trigger] s[i])
}

/// A decimal `u32`: an optional `+`, then at least one ASCII digit, with a
/// value that fits.
pub open spec fn parse_u32_spec(s: Seq<char>) -> Option<u32> {
    let d = if s.len() > 0 && s[0] == '+' { s.drop_first() } else { s };
    if d.len() > 0 && all_digits(d) && digits_value(d) <= u32::MAX {
        Some(digits_value(d) as u32)
    } else {
        None
    }
}

/// Index of the field that holds the height.
pub const HEIGHT_FIELD: usize = 4;

/// The height a line carries: its fifth field read as a decimal `u32`, or the
/// sentinel where that field is missing or not such a number.
pub open spec fn height_of(line: Seq<char>) -> u32 {
    let f = fields(line);
    if f.len() > HEIGHT_FIELD {
        match parse_u32_spec(f[HEIGHT_FIELD as int]) {
            Some(v) => v,
            None => MAX_HEIGHT,
        }
    } else {
        MAX_HEIGHT
    }
}

/// Why a line cannot be read.
#[derive(Clone, Copy, Debug, PartialEq, Eq, Structural)]
pub enum LineError {
    /// The line does not begin with a valid `YYYY-MM-DD HH:MM:SS` timestamp.
    BadTimestamp,
}

/// What reading a line gives: the timestamp of its first nineteen characters
/// and its height, or an error where the timestamp is not valid.
pub open spec fn parse_line_spec(line: Seq<char>) -> Result<(Stamp, u32), LineError> {
    if line.len() >= 19 && is_stamp_text(line.take(19)) {
        Ok((decode_stamp(line.take(19)), height_of(line)))
    } else {
        Err(LineError::BadTimestamp)
    }
}

proof fn lemma_digits_prefix(s: Seq<char>, k: int)
    requires
        0 <= k <= s.len(),
    ensures
        digits_value(s.take(k)) <= digits_value(s),
    decreases s.len() - k,
{
    if k < s.len() {
        lemma_digits_prefix(s, k + 1);
        assert(s.take(k + 1).drop_last() =~= s.take(k));
    } else {
        assert(s.take(k) =~= s);
    }
}

/// Reads a decimal `u32` as `str::parse` does.
pub fn parse_u32(s: &str) -> (r: Option<u32>)
    ensures
        r == parse_u32_spec(s@),
{
    let n = s.unicode_len();
    let mut i: usize = 0;
    if n > 0 && s.get_char(0) == '+' {
        i = 1;
    }
    let start = i;
    let ghost d = s@.skip(start as int);
    proof {
        assert(d =~= if s@.len() > 0 && s@[0] == '+' { s@.drop_first() } else { s@ });
    }
    if i == n {
        return None;
    }
    let mut acc: u64 = 0;
    while i < n
        invariant
            start <= i <= n,
            n == s@.len(),
            d == s@.skip(start as int),
            d == (if s@.len() > 0 && s@[0] == '+' { s@.drop_first() } else { s@ }),
            acc as nat == digits_value(d.take(i - start)),
            acc <= u32::MAX,
            all_digits(d.take(i - start)),
        decreases n - i,
    {
        let c = s.get_char(i);
        proof {
            assert(d.take(i + 1 - start).drop_last() =~= d.take(i - start));
            assert(d.take(i + 1 - start).last() == c);
        }
        if !('0' <= c && c <= '9') {
            proof {
                assert(d[i - start] == c);
                assert(!is_digit(d[i - start]));
                assert(!all_digits(d));
                assert(parse_u32_spec(s@) is None);
            }
            return None;
        }
        acc = acc * 10 + (c as u64 - '0' as u64);
        proof {
            assert(digit_value(c) == c as u64 - '0' as u64);
            assert(acc as nat == digits_value(d.take(i + 1 - start)));
        }
        if acc > u32::MAX as u64 {
            proof {
                lemma_digits_prefix(d, i + 1 - start);
                assert(digits_value(d) > u32::MAX);
                assert(parse_u32_spec(s@) is None);
            }
            return None;
        }
        i = i + 1;
        proof {
            assert forall|j: int| 0 <= j < i - start implies is_digit(#[trigger] d.take(i - start)[j]) by {
                if j < i - 1 - start {
                    assert(d.take(i - start)[j] == d.take(i - 1 - start)[j]);
                }
            }
        }
    }
    proof {
        assert(d.take(n - start) =~= d);
    }
    Some(acc as u32)
}

/// The character range of field `k` of `line`, where there is one.
fn field_range(line: &str, k: usize) -> (r: Option<(usize, usize)>)
    ensures
        r is Some <==> fields(line@).len() > k,
        r matches Some((a, b)) ==> a <= b <= line@.len() && line@.subrange(a as int, b as int)
            == fields(line@)[k as int],
{
    let n = line.unicode_len();
    let ghost s = line@;
    let ghost mut done: Seq<Seq<char>> = seq![];
    let mut count: usize = 0;
    let mut start: usize = 0;
    let mut i: usize = 0;
    proof {
        assert(s.skip(0) =~= s);
        assert(s.subrange(0, 0) =~= seq![]);
        assert(done + fields(s) =~= fields(s));
    }
    while i < n
        invariant
            n == s.len(),
            s == line@,
            start <= i <= n,
            count == done.len(),
            count <= k,
            fields(s) == done + split_from(s.skip(i as int), s.subrange(start as int, i as int)),
        decreases n - i,
    {
        let c = line.get_char(i);
        let ghost cur = s.subrange(start as int, i as int);
        proof {
            assert(s.skip(i as int).drop_first() =~= s.skip(i + 1));
            assert(s.skip(i as int)[0] == c);
        }
        if is_space(c) {
            if start < i {
                if count == k {
                    proof {
                        assert(fields(s) == done + (seq![cur] + split_from(s.skip(i + 1), seq![])));
                        assert((done + (seq![cur] + split_from(s.skip(i + 1), seq![])))[k as int]
                            == cur);
                    }
                    return Some((start, i));
                }
                proof {
                    assert(done + (seq![cur] + split_from(s.skip(i + 1), seq![])) =~= done.push(cur)
                        + split_from(s.skip(i + 1), seq![]));
                    done = done.push(cur);
                }
                count = count + 1;
            } else {
                proof {
                    assert(cur =~= seq![]);
                    assert(seq![] + split_from(s.skip(i + 1), seq![]) =~= split_from(
                        s.skip(i + 1),
                        seq![],
                    ));
                }
            }
            start = i + 1;
            proof {
                assert(s.subrange(start as int, i + 1) =~= seq![]);
            }
        } else {
            proof {
                assert(cur.push(c) =~= s.subrange(start as int, i + 1));
            }
        }
        i = i + 1;
    }
    let ghost cur = s.subrange(start as int, n as int);
    proof {
        assert(s.skip(n as int) =~= seq![]);
    }
    if start < n && count == k {
        proof {
            assert(fields(s) == done + seq![cur]);
            assert((done + seq![cur])[k as int] == cur);
        }
        Some((start, n))
    } else {
        proof {
            if start < n {
                assert(fields(s) == done + seq![cur]);
            } else {
                assert(cur.len() == 0);
                assert(fields(s) =~= done);
            }
        }
        None
    }
}

/// Reads the height field of a line, substituting the sentinel where it is
/// missing or not a number.
pub fn parse_height(line: &str) -> (r: u32)
    ensures
        r == height_of(line@),
{
    match field_range(line, HEIGHT_FIELD) {
        Some((a, b)) => {
            let f = line.substring_char(a, b);
            match parse_u32(f) {
                Some(v) => v,
                None => MAX_HEIGHT,
            }
        },
        None => MAX_HEIGHT,
    }
}

/// Reads one line of the feed: the timestamp of its first nineteen characters
/// and its height.
pub fn parse_line(line: &str) -> (r: Result<(Stamp, u32), LineError>)
    ensures
        r == parse_line_spec(line@),
{
    let n = line.unicode_len();
    if n < 19 {
        return Err(LineError::BadTimestamp);
    }
    let prefix = line.substring_char(0, 19);
    proof {
        assert(prefix@ =~= line@.take(19));
    }
    match parse_stamp(prefix) {
        Some(st) => Ok((st, parse_height(line))),
        None => Err(LineError::BadTimestamp),
    }
}

/// A line with a valid timestamp is always read; where its height field is
/// missing or not a number, the height is the sentinel.
pub proof fn lemma_sentinel_height(line: Seq<char>)
    requires
        line.len() >= 19,
        is_stamp_text(line.take(19)),
        fields(line).len() <= HEIGHT_FIELD || parse_u32_spec(fields(line)[HEIGHT_FIELD as int]) is None,
    ensures
        parse_line_spec(line) == Ok::<(Stamp, u32), LineError>(
            (decode_stamp(line.take(19)), MAX_HEIGHT),
        ),
{
}

/// Reading depends on the text of the line alone: equal texts read the same.
pub proof fn lemma_parse_deterministic(a: Seq<char>, b: Seq<char>)
    requires
        a == b,
    ensures
        parse_line_spec(a) == parse_line_spec(b),
{
}

} // verus!
