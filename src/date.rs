//! Calendar dates as plain values, and their `YYYY-MM-DD` text form.

use vstd::prelude::*;
use chrono::Datelike;
use chrono::NaiveDate;

verus! {

/// A day of the proleptic Gregorian calendar. A valid date lies in the
/// years 0 through 9999, the range that the `YYYY-MM-DD` form can write.
#[derive(Clone, Copy, Debug, PartialEq, Eq, Structural)]
pub struct Date {
    pub year: u32,
    pub month: u32,
    pub day: u32,
}

pub open spec fn is_leap_year(y: int) -> bool {
    y % 4 == 0 && (y % 100 != 0 || y % 400 == 0)
}

pub open spec fn days_in_month(y: int, m: int) -> int {
    if m == 2 {
        if is_leap_year(y) { 29 } else { 28 }
    } else if m == 4 || m == 6 || m == 9 || m == 11 {
        30
    } else {
        31
    }
}

pub open spec fn is_calendar_date(y: int, m: int, d: int) -> bool {
    0 <= y <= 9999 && 1 <= m <= 12 && 1 <= d <= days_in_month(y, m)
}

impl Date {
    pub open spec fn valid(self) -> bool {
        is_calendar_date(self.year as int, self.month as int, self.day as int)
    }

    /// Whether `self` falls on or before `other`.
    pub open spec fn on_or_before(self, other: Date) -> bool {
        self.year < other.year || (self.year == other.year && (self.month < other.month || (
        self.month == other.month && self.day <= other.day)))
    }

    /// The date with these parts, where they name a day of the calendar.
    pub fn from_ymd(year: u32, month: u32, day: u32) -> (r: Option<Date>)
        ensures
            r == (if is_calendar_date(year as int, month as int, day as int) {
                Some(Date { year, month, day })
            } else {
                None
            }),
    {
        if year > 9999 || month < 1 || month > 12 || day < 1 {
            return None;
        }
        let leap = year % 4 == 0 && (year % 100 != 0 || year % 400 == 0);
        let last: u32 = if month == 2 {
            if leap { 29 } else { 28 }
        } else if month == 4 || month == 6 || month == 9 || month == 11 {
            30
        } else {
            31
        };
        if day <= last {
            Some(Date { year, month, day })
        } else {
            None
        }
    }

    /// Whether `self` falls on or before `other`.
    pub fn is_on_or_before(&self, other: &Date) -> (r: bool)
        ensures
            r == self.on_or_before(*other),
    {
        self.year < other.year || (self.year == other.year && (self.month < other.month || (
        self.month == other.month && self.day <= other.day)))
    }
}

pub open spec fn is_digit(c: char) -> bool {
    '0' <= c && c <= '9'
}

pub open spec fn digit_value(c: char) -> int {
    (c as int) - ('0' as int)
}

pub open spec fn digit_char(k: int) -> char {
    seq!['0', '1', '2', '3', '4', '5', '6', '7', '8', '9'][k]
}

/// Text of the shape `dddd-dd-dd`: ten characters, a dash at the fifth and
/// eighth, a decimal digit everywhere else.
pub open spec fn has_date_shape(s: Seq<char>) -> bool {
    &&& s.len() == 10
    &&& s[4] == '-'
    &&& s[7] == '-'
    &&& forall|i: int| 0 <= i < 10 && i != 4 && i != 7 ==> is_digit(#[trigger] s[i])
}

pub open spec fn shaped_year(s: Seq<char>) -> int {
    1000 * digit_value(s[0]) + 100 * digit_value(s[1]) + 10 * digit_value(s[2]) + digit_value(s[3])
}

pub open spec fn shaped_month(s: Seq<char>) -> int {
    10 * digit_value(s[5]) + digit_value(s[6])
}

pub open spec fn shaped_day(s: Seq<char>) -> int {
    10 * digit_value(s[8]) + digit_value(s[9])
}

/// The date that `s` writes in the `YYYY-MM-DD` form, if it writes one.
pub open spec fn parse_date(s: Seq<char>) -> Option<Date> {
    if has_date_shape(s) && is_calendar_date(shaped_year(s), shaped_month(s), shaped_day(s)) {
        Some(
            Date {
                year: shaped_year(s) as u32,
                month: shaped_month(s) as u32,
                day: shaped_day(s) as u32,
            },
        )
    } else {
        None
    }
}

/// The `YYYY-MM-DD` form of a valid date.
pub open spec fn date_text(d: Date) -> Seq<char> {
    let y = d.year as int;
    let m = d.month as int;
    let dd = d.day as int;
    seq![
        digit_char(y / 1000),
        digit_char(y / 100 % 10),
        digit_char(y / 10 % 10),
        digit_char(y % 10),
        '-',
        digit_char(m / 10),
        digit_char(m % 10),
        '-',
        digit_char(dd / 10),
        digit_char(dd % 10),
    ]
}

pub proof fn lemma_digit_char(k: int)
    requires
        0 <= k < 10,
    ensures
        is_digit(digit_char(k)),
        digit_value(digit_char(k)) == k,
{
}

/// Writing a valid date in the `YYYY-MM-DD` form and reading it back gives
/// the same date.
pub proof fn lemma_date_text_round_trip(d: Date)
    requires
        d.valid(),
    ensures
        has_date_shape(date_text(d)),
        parse_date(date_text(d)) == Some(d),
{
    let y = d.year as int;
    let m = d.month as int;
    let dd = d.day as int;
    lemma_digit_char(y / 1000);
    lemma_digit_char(y / 100 % 10);
    lemma_digit_char(y / 10 % 10);
    lemma_digit_char(y % 10);
    lemma_digit_char(m / 10);
    lemma_digit_char(m % 10);
    lemma_digit_char(dd / 10);
    lemma_digit_char(dd % 10);
    let s = date_text(d);
    assert(1000 * (y / 1000) + 100 * (y / 100 % 10) + 10 * (y / 10 % 10) + y % 10 == y) by (nonlinear_arith)
        requires
            0 <= y <= 9999,
    ;
    assert(10 * (m / 10) + m % 10 == m) by (nonlinear_arith)
        requires
            0 <= m,
    ;
    assert(10 * (dd / 10) + dd % 10 == dd) by (nonlinear_arith)
        requires
            0 <= dd,
    ;
    assert(shaped_year(s) == y);
    assert(shaped_month(s) == m);
    assert(shaped_day(s) == dd);
}

proof fn lemma_digit_of_char(c: char)
    requires
        is_digit(c),
    ensures
        0 <= digit_value(c) < 10,
        digit_char(digit_value(c)) == c,
{
    let k = digit_value(c);
    assert(c == '0' || c == '1' || c == '2' || c == '3' || c == '4' || c == '5' || c == '6' || c
        == '7' || c == '8' || c == '9');
}

/// Text in the `YYYY-MM-DD` form that names a day reads as that day, and
/// writing the day back gives the same text.
pub proof fn lemma_text_date_round_trip(s: Seq<char>)
    requires
        parse_date(s) is Some,
    ensures
        parse_date(s)->0.valid(),
        date_text(parse_date(s)->0) == s,
{
    let a = digit_value(s[0]);
    let b = digit_value(s[1]);
    let c = digit_value(s[2]);
    let e = digit_value(s[3]);
    let m1 = digit_value(s[5]);
    let m2 = digit_value(s[6]);
    let d1 = digit_value(s[8]);
    let d2 = digit_value(s[9]);
    lemma_digit_of_char(s[0]);
    lemma_digit_of_char(s[1]);
    lemma_digit_of_char(s[2]);
    lemma_digit_of_char(s[3]);
    lemma_digit_of_char(s[5]);
    lemma_digit_of_char(s[6]);
    lemma_digit_of_char(s[8]);
    lemma_digit_of_char(s[9]);
    let y = 1000 * a + 100 * b + 10 * c + e;
    assert(y / 1000 == a && y / 100 % 10 == b && y / 10 % 10 == c && y % 10 == e) by (nonlinear_arith)
        requires
            0 <= a < 10,
            0 <= b < 10,
            0 <= c < 10,
            0 <= e < 10,
            y == 1000 * a + 100 * b + 10 * c + e,
    ;
    let m = 10 * m1 + m2;
    assert(m / 10 == m1 && m % 10 == m2) by (nonlinear_arith)
        requires
            0 <= m1 < 10,
            0 <= m2 < 10,
            m == 10 * m1 + m2,
    ;
    let d = 10 * d1 + d2;
    assert(d / 10 == d1 && d % 10 == d2) by (nonlinear_arith)
        requires
            0 <= d1 < 10,
            0 <= d2 < 10,
            d == 10 * d1 + d2,
    ;
    assert(date_text(parse_date(s)->0) =~= s);
}

/// Relies on chrono's `NaiveDate::parse_from_str` with the pattern
/// `%Y-%m-%d` (and on `Datelike` to read the parts back): on text of the
/// shape `dddd-dd-dd` it reads the three numbers and returns that date
/// exactly when they name a day of the calendar.
#[verifier::external_body]
fn chrono_parse_ymd(s: &str) -> (r: Option<(i32, u32, u32)>)
    ensures
        has_date_shape(s@) ==> (r is Some <==> is_calendar_date(
            shaped_year(s@),
            shaped_month(s@),
            shaped_day(s@),
        )),
        has_date_shape(s@) ==> (r matches Some(t) ==> t.0 == shaped_year(s@) && t.1 == shaped_month(
            s@,
        ) && t.2 == shaped_day(s@)),
{
    NaiveDate::parse_from_str(s, "%Y-%m-%d").ok().map(|d| (d.year(), d.month(), d.day()))
}

/// Relies on chrono's `NaiveDate::from_ymd_opt` and its `%Y-%m-%d`
/// formatting: for a year from 0 to 9999 it writes the year in four digits,
/// then the month and the day in two, padded with zeros.
#[verifier::external_body]
fn chrono_format_ymd(d: Date) -> (r: String)
    requires
        d.valid(),
    ensures
        r@ == date_text(d),
{
    match NaiveDate::from_ymd_opt(d.year as i32, d.month, d.day) {
        Some(nd) => nd.format("%Y-%m-%d").to_string(),
        None => String::new(),
    }
}

/// Whether `s` has the shape `dddd-dd-dd`.
pub fn is_date_shaped(s: &str) -> (r: bool)
    ensures
        r == has_date_shape(s@),
{
    let n = s.unicode_len();
    if n != 10 {
        return false;
    }
    let mut i: usize = 0;
    while i < 10
        invariant
            n == 10,
            s@.len() == 10,
            0 <= i <= 10,
            forall|j: int| 0 <= j < i && j != 4 && j != 7 ==> is_digit(#[trigger] s@[j]),
            i > 4 ==> s@[4] == '-',
            i > 7 ==> s@[7] == '-',
        decreases 10 - i,
    {
        let c = s.get_char(i);
        if i == 4 || i == 7 {
            if c != '-' {
                return false;
            }
        } else if !('0' <= c && c <= '9') {
            return false;
        }
        i = i + 1;
    }
    true
}

/// Reads a date written as `YYYY-MM-DD`: four digits of year, two of month
/// and two of day, naming a day of the calendar. Other text gives `None`.
pub fn parse_date_text(s: &str) -> (r: Option<Date>)
    ensures
        r == parse_date(s@),
        r matches Some(d) ==> d.valid(),
{
    if !is_date_shaped(s) {
        return None;
    }
    match chrono_parse_ymd(s) {
        Some((y, m, d)) => Some(Date { year: y as u32, month: m, day: d }),
        None => None,
    }
}

/// The `YYYY-MM-DD` form of a valid date.
pub fn format_date(d: Date) -> (r: String)
    requires
        d.valid(),
    ensures
        r@ == date_text(d),
        parse_date(r@) == Some(d),
{
    proof {
        lemma_date_text_round_trip(d);
    }
    chrono_format_ymd(d)
}

} // verus!
