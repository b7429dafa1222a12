//! Calendar dates as the record format writes them (`YYYY-MM-DD`).
use vstd::prelude::*;
use chrono::Datelike;
use crate::text::{decimal, digits_number, is_digit, push_decimal};

verus! {

/// The earliest year a date may have.
pub const MIN_YEAR: i32 = -262143;

/// The latest year a date may have.
pub const MAX_YEAR: i32 = 262142;

/// A day of the proleptic Gregorian calendar.
#[derive(Clone, Copy, Debug, PartialEq, Eq, Structural)]
pub struct Date {
    pub year: i32,
    pub month: u32,
    pub day: u32,
}

pub open spec fn is_leap_year(y: int) -> bool {
    (y % 4 == 0 && y % 100 != 0) || y % 400 == 0
}

pub open spec fn days_in_month(y: int, m: int) -> int {
    if m == 2 {
        if is_leap_year(y) {
            29
        } else {
            28
        }
    } else if m == 4 || m == 6 || m == 9 || m == 11 {
        30
    } else {
        31
    }
}

/// Whether year, month and day name a day that a `Date` can hold.
pub open spec fn is_valid_date(y: int, m: int, d: int) -> bool {
    MIN_YEAR <= y <= MAX_YEAR && 1 <= m <= 12 && 1 <= d <= days_in_month(y, m)
}

/// `n` in decimal, with leading zeros up to `width` digits.
pub open spec fn padded(n: nat, width: nat) -> Seq<char> {
    let d = decimal(n);
    if d.len() < width {
        Seq::new((width - d.len()) as nat, |i: int| '0') + d
    } else {
        d
    }
}

/// The ISO 8601 text of a date: a four-digit year (signed, and possibly
/// longer, outside 0..=9999), then two-digit month and day.
pub open spec fn date_text(d: Date) -> Seq<char> {
    let y = d.year as int;
    let ys = if 0 <= y <= 9999 {
        padded(y as nat, 4)
    } else if y < 0 {
        seq!['-'] + padded((-y) as nat, 4)
    } else {
        seq!['+'] + padded(y as nat, 4)
    };
    ys + seq!['-'] + padded(d.month as nat, 2) + seq!['-'] + padded(d.day as nat, 2)
}

/// Whether `s` is exactly `DDDD-DD-DD` with ASCII digits.
pub open spec fn is_plain_iso_text(s: Seq<char>) -> bool {
    &&& s.len() == 10
    &&& forall|i: int| 0 <= i < 10 && i != 4 && i != 7 ==> is_digit(#[trigger] s[i])
    &&& s[4] == '-'
    &&& s[7] == '-'
}

/// The date that a plain `DDDD-DD-DD` text names, if it is a valid one.
pub open spec fn plain_iso_date(s: Seq<char>) -> Option<Date> {
    let y = digits_number(s.take(4));
    let m = digits_number(s.subrange(5, 7));
    let d = digits_number(s.subrange(8, 10));
    if is_valid_date(y, m, d) {
        Some(Date { year: y as i32, month: m as u32, day: d as u32 })
    } else {
        None
    }
}

/// What chrono's `NaiveDate::parse_from_str(s, "%Y-%m-%d")` makes of `s`:
/// year, month and day, or nothing where it fails.
pub uninterp spec fn parsed_iso_date(s: Seq<char>) -> Option<(i32, u32, u32)>;

/// The date that chrono reads from `s`, as a `Date`: for a plain
/// `DDDD-DD-DD` text, the date that its digits spell.
pub open spec fn iso_date(s: Seq<char>) -> Option<Date> {
    if is_plain_iso_text(s) {
        plain_iso_date(s)
    } else {
        match parsed_iso_date(s) {
            Some((y, m, d)) => Some(Date { year: y, month: m, day: d }),
            None => None,
        }
    }
}

/// Relies on chrono's `NaiveDate::parse_from_str` with the format
/// `%Y-%m-%d`: a parsed date is a valid one, and a text of exactly four, two
/// and two ASCII digits between dashes gives the date it spells whenever that
/// date exists (and fails otherwise).
#[verifier::external_body]
fn parse_iso_date(s: &str) -> (r: Option<Date>)
    ensures
        r is None <==> parsed_iso_date(s@) is None,
        r matches Some(d) ==> parsed_iso_date(s@) == Some((d.year, d.month, d.day)),
        r matches Some(d) ==> d.valid(),
        is_plain_iso_text(s@) ==> r == plain_iso_date(s@),
{
    match chrono::NaiveDate::parse_from_str(s, "%Y-%m-%d") {
        Ok(d) => Some(Date { year: d.year(), month: d.month(), day: d.day() }),
        Err(_) => None,
    }
}

impl Date {
    pub open spec fn valid(&self) -> bool {
        is_valid_date(self.year as int, self.month as int, self.day as int)
    }

    /// The date with these fields, where it exists.
    pub fn from_ymd_opt(year: i32, month: u32, day: u32) -> (r: Option<Date>)
        ensures
            r == (if is_valid_date(year as int, month as int, day as int) {
                Some(Date { year, month, day })
            } else {
                None
            }),
    {
        if year < MIN_YEAR || year > MAX_YEAR || month < 1 || month > 12 || day < 1 {
            return None;
        }
        // shifted by a multiple of 400 so that the remainders are those of `year`
        let shifted: u64 = (year as i64 + 400000) as u64;
        assert(shifted % 4 == year % 4 && shifted % 100 == year % 100 && shifted % 400 == year
            % 400);
        let leap = (shifted % 4 == 0 && shifted % 100 != 0) || shifted % 400 == 0;
        let last: u32 = if month == 2 {
            if leap {
                29
            } else {
                28
            }
        } else if month == 4 || month == 6 || month == 9 || month == 11 {
            30
        } else {
            31
        };
        if day > last {
            None
        } else {
            Some(Date { year, month, day })
        }
    }

    /// Parses a `YYYY-MM-DD` text, as chrono reads it.
    pub fn parse(s: &str) -> (r: Option<Date>)
        ensures
            r == iso_date(s@),
            r matches Some(d) ==> d.valid(),
    {
        parse_iso_date(s)
    }

    /// Appends the text of this date to `out`.
    pub fn push_text(&self, out: &mut Vec<char>)
        ensures
            final(out)@ == old(out)@ + date_text(*self),
    {
        let ghost start = out@;
        let y = self.year;
        if 0 <= y && y <= 9999 {
            push_padded(out, y as u32, 4);
        } else if y < 0 {
            out.push('-');
            push_padded(out, (0i64 - y as i64) as u32, 4);
        } else {
            out.push('+');
            push_padded(out, y as u32, 4);
        }
        out.push('-');
        push_padded(out, self.month, 2);
        out.push('-');
        push_padded(out, self.day, 2);
        assert(out@ =~= start + date_text(*self));
    }
}

/// The number of decimal digits of `n`.
pub fn decimal_len(n: u32) -> (r: usize)
    ensures
        r == decimal(n as nat).len(),
        r <= n as int + 1,
    decreases n,
{
    if n < 10 {
        1
    } else {
        1 + decimal_len(n / 10)
    }
}

/// Appends `n` in decimal, with leading zeros up to `width` digits.
pub fn push_padded(out: &mut Vec<char>, n: u32, width: usize)
    ensures
        final(out)@ == old(out)@ + padded(n as nat, width as nat),
{
    let ghost start = out@;
    let len = decimal_len(n);
    if len < width {
        let mut i: usize = 0;
        while i < width - len
            invariant
                len < width,
                i <= width - len,
                out@ == start + Seq::new(i as nat, |k: int| '0'),
            decreases width - len - i,
        {
            out.push('0');
            assert(out@ =~= start + Seq::new((i + 1) as nat, |k: int| '0'));
            i += 1;
        }
    }
    let ghost mid = out@;
    push_decimal(out, n);
    assert(out@ =~= start + padded(n as nat, width as nat));
}

} // verus!
