//! Calendar timestamps held as plain year/month/day/hour/minute/second
//! values, with the `dd-mm-yyyy hh:mm:ss` text form they are read from
//! and shown in, and the round-trip between the two proved.

use vstd::prelude::*;
use crate::digits::{
    all_digits, lemma_num_text_roundtrip, lemma_text_num_bound, num_text, parse_num, pow10,
    push_num, text_num,
};

verus! {

/// An absolute point in time (local calendar date plus time of day).
#[derive(Clone, Copy, Debug, PartialEq, Eq, Structural)]
pub struct DueDate {
    pub year: u16,
    pub month: u8,
    pub day: u8,
    pub hour: u8,
    pub minute: u8,
    pub second: u8,
}

pub open spec fn leap_year(y: int) -> bool {
    y % 4 == 0 && (y % 100 != 0 || y % 400 == 0)
}

pub open spec fn days_in_month(y: int, m: int) -> int {
    if m == 2 {
        if leap_year(y) {
            29
        } else {
            28
        }
    } else if m == 4 || m == 6 || m == 9 || m == 11 {
        30
    } else {
        31
    }
}

impl DueDate {
    /// A valid calendar timestamp: in-range fields and a day that exists
    /// in its month (leap years included).
    pub open spec fn wf(self) -> bool {
        &&& self.year <= 9999
        &&& 1 <= self.month <= 12
        &&& 1 <= self.day <= days_in_month(self.year as int, self.month as int)
        &&& self.hour <= 23
        &&& self.minute <= 59
        &&& self.second <= 59
    }

    /// A key that orders timestamps chronologically: later in time means
    /// a strictly larger key.
    pub open spec fn ts(self) -> int {
        ((((self.year * 13 + self.month) * 32 + self.day) * 24 + self.hour) * 60 + self.minute)
            * 60 + self.second
    }

    /// The chronological-order key, executable.
    pub fn ts_key(&self) -> (r: u64)
        ensures
            r == self.ts(),
    {
        ((((self.year as u64 * 13 + self.month as u64) * 32 + self.day as u64) * 24
            + self.hour as u64) * 60 + self.minute as u64) * 60 + self.second as u64
    }

    /// Whether `self` is due no later than `other`.
    pub fn le(&self, other: &DueDate) -> (r: bool)
        ensures
            r == (self.ts() <= other.ts()),
    {
        self.ts_key() <= other.ts_key()
    }
}

/// The text a timestamp is read from and shown as:
/// `dd-mm-yyyy hh:mm:ss`, every field zero-padded.
pub open spec fn due_text(d: DueDate) -> Seq<char> {
    num_text(d.day as int, 2) + seq!['-'] + num_text(d.month as int, 2) + seq!['-'] + num_text(
        d.year as int,
        4,
    ) + seq![' '] + num_text(d.hour as int, 2) + seq![':'] + num_text(d.minute as int, 2)
        + seq![':'] + num_text(d.second as int, 2)
}

/// Whether a 19-character text has the `dd-mm-yyyy hh:mm:ss` shape:
/// digits in the number fields and the fixed separators between them.
pub open spec fn due_text_shaped(s: Seq<char>) -> bool {
    &&& s.len() == 19
    &&& all_digits(s.subrange(0, 2))
    &&& s[2] == '-'
    &&& all_digits(s.subrange(3, 5))
    &&& s[5] == '-'
    &&& all_digits(s.subrange(6, 10))
    &&& s[10] == ' '
    &&& all_digits(s.subrange(11, 13))
    &&& s[13] == ':'
    &&& all_digits(s.subrange(14, 16))
    &&& s[16] == ':'
    &&& all_digits(s.subrange(17, 19))
}

/// The timestamp a shaped text denotes (meaningful only where
/// `due_text_shaped` holds).
pub open spec fn due_of_text(s: Seq<char>) -> DueDate {
    DueDate {
        day: text_num(s.subrange(0, 2)) as u8,
        month: text_num(s.subrange(3, 5)) as u8,
        year: text_num(s.subrange(6, 10)) as u16,
        hour: text_num(s.subrange(11, 13)) as u8,
        minute: text_num(s.subrange(14, 16)) as u8,
        second: text_num(s.subrange(17, 19)) as u8,
    }
}

/// A text parses as a timestamp when it is shaped and the fields it
/// denotes form a valid calendar timestamp.
pub open spec fn due_text_valid(s: Seq<char>) -> bool {
    due_text_shaped(s) && due_of_text(s).wf()
}

/// Rendering a valid timestamp gives a shaped text that denotes it back.
pub proof fn lemma_due_text_roundtrip(d: DueDate)
    requires
        d.wf(),
    ensures
        due_text(d).len() == 19,
        due_text_valid(due_text(d)),
        due_of_text(due_text(d)) == d,
{
    reveal_with_fuel(pow10, 6);
    lemma_num_text_roundtrip(d.day as int, 2);
    lemma_num_text_roundtrip(d.month as int, 2);
    lemma_num_text_roundtrip(d.year as int, 4);
    lemma_num_text_roundtrip(d.hour as int, 2);
    lemma_num_text_roundtrip(d.minute as int, 2);
    lemma_num_text_roundtrip(d.second as int, 2);
    let s = due_text(d);
    assert(s.subrange(0, 2) =~= num_text(d.day as int, 2));
    assert(s.subrange(3, 5) =~= num_text(d.month as int, 2));
    assert(s.subrange(6, 10) =~= num_text(d.year as int, 4));
    assert(s.subrange(11, 13) =~= num_text(d.hour as int, 2));
    assert(s.subrange(14, 16) =~= num_text(d.minute as int, 2));
    assert(s.subrange(17, 19) =~= num_text(d.second as int, 2));
}

/// Appends the text form of a timestamp.
pub fn push_due_text(out: &mut Vec<char>, d: &DueDate)
    ensures
        final(out)@ == old(out)@ + due_text(*d),
{
    push_num(out, d.day as u128, 2);
    out.push('-');
    push_num(out, d.month as u128, 2);
    out.push('-');
    push_num(out, d.year as u128, 4);
    out.push(' ');
    push_num(out, d.hour as u128, 2);
    out.push(':');
    push_num(out, d.minute as u128, 2);
    out.push(':');
    push_num(out, d.second as u128, 2);
    proof {
        assert(final(out)@ =~= old(out)@ + due_text(*d));
    }
}

/// Reads the 19 characters of `s` starting at `start` as a timestamp:
/// `Some` exactly where they form a valid `dd-mm-yyyy hh:mm:ss` text.
pub fn parse_due_at(s: &Vec<char>, start: usize) -> (r: Option<DueDate>)
    requires
        start + 19 <= s@.len(),
    ensures
        due_text_valid(s@.subrange(start as int, start + 19)) ==> r == Some(
            due_of_text(s@.subrange(start as int, start + 19)),
        ),
        !due_text_valid(s@.subrange(start as int, start + 19)) ==> r is None,
{
    let ghost t = s@.subrange(start as int, start + 19);
    let slen = s.len();
    if !(s[start + 2] == '-' && s[start + 5] == '-' && s[start + 10] == ' ' && s[start + 13] == ':'
        && s[start + 16] == ':') {
        assert(!due_text_shaped(t));
        return None;
    }
    let day = parse_num(s, start, 2);
    let month = parse_num(s, start + 3, 2);
    let year = parse_num(s, start + 6, 4);
    let hour = parse_num(s, start + 11, 2);
    let minute = parse_num(s, start + 14, 2);
    let second = parse_num(s, start + 17, 2);
    proof {
        assert(t.subrange(0, 2) =~= s@.subrange(start as int, start + 2));
        assert(t.subrange(3, 5) =~= s@.subrange(start + 3, start + 5));
        assert(t.subrange(6, 10) =~= s@.subrange(start + 6, start + 10));
        assert(t.subrange(11, 13) =~= s@.subrange(start + 11, start + 13));
        assert(t.subrange(14, 16) =~= s@.subrange(start + 14, start + 16));
        assert(t.subrange(17, 19) =~= s@.subrange(start + 17, start + 19));
        assert(t[2] == s@[start + 2]);
        assert(t[5] == s@[start + 5]);
        assert(t[10] == s@[start + 10]);
        assert(t[13] == s@[start + 13]);
        assert(t[16] == s@[start + 16]);
    }
    match (day, month, year, hour, minute, second) {
        (Some(day), Some(month), Some(year), Some(hour), Some(minute), Some(second)) => {
            proof {
                lemma_text_num_bound(t.subrange(0, 2));
                lemma_text_num_bound(t.subrange(3, 5));
                lemma_text_num_bound(t.subrange(6, 10));
                lemma_text_num_bound(t.subrange(11, 13));
                lemma_text_num_bound(t.subrange(14, 16));
                lemma_text_num_bound(t.subrange(17, 19));
                reveal_with_fuel(pow10, 5);
            }
            let d = DueDate {
                day: day as u8,
                month: month as u8,
                year: year as u16,
                hour: hour as u8,
                minute: minute as u8,
                second: second as u8,
            };
            let ok = 1 <= d.month && d.month <= 12 && 1 <= d.day && d.hour <= 23 && d.minute <= 59
                && d.second <= 59 && d.day <= days_in_month_exec(d.year, d.month);
            if ok {
                Some(d)
            } else {
                assert(!due_of_text(t).wf());
                None
            }
        },
        _ => {
            assert(!due_text_shaped(t));
            None
        },
    }
}

/// How many days the given month of the given year has.
pub fn days_in_month_exec(year: u16, month: u8) -> (r: u8)
    ensures
        r == days_in_month(year as int, month as int),
{
    if month == 2 {
        if year % 4 == 0 && (year % 100 != 0 || year % 400 == 0) {
            29
        } else {
            28
        }
    } else if month == 4 || month == 6 || month == 9 || month == 11 {
        30
    } else {
        31
    }
}

} // verus!
