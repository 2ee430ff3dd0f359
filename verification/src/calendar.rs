//! Instants and calendar dates, in UTC.

use chrono::{DateTime, Utc};
use vstd::prelude::*;

use crate::text::{a_decimal_number_reads_back, decimal, is_numeral, place_value};

verus! {

// ─── The calendar ───────────────────────────────────────────────────────────

/// Microseconds in a day.
pub const DAY_MICROS: i64 = 86_400_000_000;

/// Leap years of the proleptic Gregorian calendar.
pub open spec fn is_leap(year: int) -> bool {
    year % 4 == 0 && (year % 100 != 0 || year % 400 == 0)
}

/// Leap years from year 1 to `year`, counted backwards where `year` is earlier.
pub open spec fn leaps_through(year: int) -> int {
    year / 4 - year / 100 + year / 400
}

/// How many days a month has.
pub open spec fn days_in_month(year: int, month: int) -> int {
    if month == 2 {
        if is_leap(year) {
            29
        } else {
            28
        }
    } else if month == 4 || month == 6 || month == 9 || month == 11 {
        30
    } else {
        31
    }
}

/// Days from 1970-01-01 to the first day of `year`.
pub open spec fn year_start(year: int) -> int {
    365 * (year - 1970) + leaps_through(year - 1) - leaps_through(1969)
}

/// Days from the first day of `year` to the first day of `month`.
pub open spec fn month_start(year: int, month: int) -> int
    decreases month,
{
    if month <= 1 {
        0
    } else {
        month_start(year, month - 1) + days_in_month(year, month - 1)
    }
}

/// Whether the calendar has this date.
pub open spec fn is_date(year: int, month: int, day: int) -> bool {
    1 <= month <= 12 && 1 <= day <= days_in_month(year, month)
}

/// Days from 1970-01-01 to the given date.
pub open spec fn epoch_day(year: int, month: int, day: int) -> int {
    year_start(year) + month_start(year, month) + day - 1
}

/// Whether the instant `micros` microseconds after 1970-01-01T00:00:00Z falls
/// on the given date, in UTC.
pub open spec fn falls_on(micros: int, year: int, month: int, day: int) -> bool {
    is_date(year, month, day) && epoch_day(year, month, day) == micros / DAY_MICROS as int
}

/// `n` in decimal, with zeros ahead up to `width` digits.
pub open spec fn padded(n: nat, width: int) -> Seq<char> {
    let digits = decimal(n);
    if digits.len() < width {
        Seq::new((width - digits.len()) as nat, |i: int| '0') + digits
    } else {
        digits
    }
}

/// A year takes four digits; outside 0 to 9999 it has a sign ahead.
pub open spec fn year_text(year: int) -> Seq<char> {
    if year < 0 {
        seq!['-'] + padded((-year) as nat, 4)
    } else if year <= 9999 {
        padded(year as nat, 4)
    } else {
        seq!['+'] + padded(year as nat, 4)
    }
}

/// A date as `YYYY-MM-DD`.
pub open spec fn date_text(year: int, month: int, day: int) -> Seq<char> {
    year_text(year) + seq!['-'] + padded(month as nat, 2) + seq!['-'] + padded(day as nat, 2)
}

/// Whether `text` is the date, as `YYYY-MM-DD`, on which the instant falls.
pub open spec fn is_date_of(text: Seq<char>, micros: int) -> bool {
    exists|year: int, month: int, day: int|
        falls_on(micros, year, month, day) && text == date_text(year, month, day)
}

/// The date, as `YYYY-MM-DD`, of the instant `micros` microseconds after
/// 1970-01-01T00:00:00Z.
pub open spec fn utc_date(micros: int) -> Seq<char> {
    let (year, month, day) = choose|year: int, month: int, day: int|
        falls_on(micros, year, month, day);
    date_text(year, month, day)
}

/// An instant falls on one date only.
pub proof fn an_instant_falls_on_one_date(
    micros: int,
    year1: int,
    month1: int,
    day1: int,
    year2: int,
    month2: int,
    day2: int,
)
    requires
        falls_on(micros, year1, month1, day1),
        falls_on(micros, year2, month2, day2),
    ensures
        year1 == year2,
        month1 == month2,
        day1 == day2,
{
    lemma_day_within_year(year1, month1, day1);
    lemma_day_within_year(year2, month2, day2);
    if year1 < year2 {
        lemma_years_ordered(year1 + 1, year2);
    } else if year2 < year1 {
        lemma_years_ordered(year2 + 1, year1);
    }
    if month1 < month2 {
        lemma_months_ordered(year1, month1 + 1, month2);
    } else if month2 < month1 {
        lemma_months_ordered(year1, month2 + 1, month1);
    }
}

/// Every instant falls on a date.
pub proof fn every_instant_falls_on_a_date(micros: int)
    ensures
        is_date_of(utc_date(micros), micros),
{
    let days = micros / DAY_MICROS as int;
    let year = lemma_year_of(days);
    let rest = days - year_start(year);
    lemma_year_length(year);
    assert(month_start(year, 13) == year_start(year + 1) - year_start(year)) by {
        reveal_with_fuel(month_start, 14);
    }
    let month = lemma_month_of(year, rest, 12);
    let day = rest - month_start(year, month) + 1;
    assert(falls_on(micros, year, month, day));
}

/// The year that a day is in.
proof fn lemma_year_of(days: int) -> (year: int)
    ensures
        year_start(year) <= days < year_start(year + 1),
    decreases if days >= 0 {
        days
    } else {
        -days
    },
{
    if days == 0 {
        lemma_year_length(1970);
        1970
    } else if days > 0 {
        let year = lemma_year_of(days - 1);
        lemma_year_length(year + 1);
        if days < year_start(year + 1) {
            year
        } else {
            year + 1
        }
    } else {
        let year = lemma_year_of(days + 1);
        lemma_year_length(year - 1);
        if days >= year_start(year) {
            year
        } else {
            year - 1
        }
    }
}

/// The month, up to `last`, that a day of the year is in.
proof fn lemma_month_of(year: int, rest: int, last: int) -> (month: int)
    requires
        1 <= last <= 12,
        0 <= rest < month_start(year, last + 1),
    ensures
        1 <= month <= last,
        month_start(year, month) <= rest < month_start(year, month) + days_in_month(year, month),
    decreases last,
{
    if last == 1 || rest >= month_start(year, last) {
        last
    } else {
        lemma_month_of(year, rest, last - 1)
    }
}

proof fn lemma_year_length(year: int)
    ensures
        year_start(year + 1) - year_start(year) == if is_leap(year) {
            366int
        } else {
            365int
        },
{
}

proof fn lemma_years_ordered(a: int, b: int)
    requires
        a <= b,
    ensures
        year_start(a) <= year_start(b),
    decreases b - a,
{
    if a < b {
        lemma_years_ordered(a, b - 1);
        lemma_year_length(b - 1);
    }
}

proof fn lemma_months_ordered(year: int, a: int, b: int)
    requires
        1 <= a <= b,
    ensures
        month_start(year, a) <= month_start(year, b),
    decreases b - a,
{
    if a < b {
        lemma_months_ordered(year, a, b - 1);
    }
}

proof fn lemma_day_within_year(year: int, month: int, day: int)
    requires
        is_date(year, month, day),
    ensures
        year_start(year) <= epoch_day(year, month, day) < year_start(year + 1),
{
    lemma_months_ordered(year, 1, month);
    lemma_months_ordered(year, month + 1, 13);
    reveal_with_fuel(month_start, 14);
    lemma_year_length(year);
}

/// A written date holds no slash.
pub proof fn a_date_holds_no_slash(micros: int)
    ensures
        !utc_date(micros).contains('/'),
{
    let (year, month, day) = choose|year: int, month: int, day: int|
        falls_on(micros, year, month, day);
    lemma_padded_chars(if year < 0 {
        (-year) as nat
    } else {
        year as nat
    }, 4);
    lemma_padded_chars(month as nat, 2);
    lemma_padded_chars(day as nat, 2);
}

proof fn lemma_padded_chars(n: nat, width: int)
    ensures
        forall|i: int| 0 <= i < padded(n, width).len() ==> '0' <= #[trigger] padded(n, width)[i]
            <= '9',
{
    crate::text::lemma_decimal_chars(n);
}

/// Zeros ahead change nothing in what a number reads as.
proof fn lemma_zeros_ahead(n: nat, text: Seq<char>)
    ensures
        place_value(Seq::new(n, |i: int| '0') + text) == place_value(text),
    decreases n,
{
    let zeros = Seq::new(n, |i: int| '0');
    if n == 0 {
        assert(zeros + text =~= text);
    } else {
        let fewer = Seq::new((n - 1) as nat, |i: int| '0');
        lemma_zeros_ahead((n - 1) as nat, text);
        assert((zeros + text).skip(1) =~= fewer + text);
        assert((zeros + text)[0] == '0');
        let p = vstd::arithmetic::power::pow(10, ((zeros + text).len() - 1) as nat);
        assert(0 * p == 0);
    }
}

/// A padded number reads back as that number, and has the width asked for unless
/// it is longer by itself.
proof fn lemma_padded_reads_back(n: nat, width: int)
    requires
        width >= 1,
    ensures
        is_numeral(padded(n, width)),
        place_value(padded(n, width)) == n,
        padded(n, width).len() >= width,
        width == 2 && n < 100 ==> padded(n, width).len() == 2,
        width == 4 && n < 10_000 ==> padded(n, width).len() == 4,
{
    a_decimal_number_reads_back(n);
    lemma_padded_chars(n, width);
    let digits = decimal(n);
    if digits.len() < width {
        lemma_zeros_ahead((width - digits.len()) as nat, digits);
    }
    reveal_with_fuel(decimal, 4);
}

/// A date as text reads back: the year in four digits (with a sign ahead outside
/// 0 to 9999), the month in two and the day in two, with a dash between them.
pub proof fn a_date_reads_back(year: int, month: int, day: int) -> (parts: (
    Seq<char>,
    Seq<char>,
    Seq<char>,
))
    requires
        is_date(year, month, day),
    ensures
        0 <= year <= 9999 ==> date_text(year, month, day) == parts.0 + seq!['-'] + parts.1 + seq![
            '-',
        ] + parts.2,
        year < 0 ==> date_text(year, month, day) == seq!['-'] + parts.0 + seq!['-'] + parts.1
            + seq!['-'] + parts.2,
        year > 9999 ==> date_text(year, month, day) == seq!['+'] + parts.0 + seq!['-'] + parts.1
            + seq!['-'] + parts.2,
        is_numeral(parts.0) && place_value(parts.0) == if year < 0 {
            -year
        } else {
            year
        },
        -9999 <= year <= 9999 ==> parts.0.len() == 4,
        is_numeral(parts.1) && place_value(parts.1) == month && parts.1.len() == 2,
        is_numeral(parts.2) && place_value(parts.2) == day && parts.2.len() == 2,
{
    let size = if year < 0 {
        -year
    } else {
        year
    };
    lemma_padded_reads_back(size as nat, 4);
    lemma_padded_reads_back(month as nat, 2);
    lemma_padded_reads_back(day as nat, 2);
    (padded(size as nat, 4), padded(month as nat, 2), padded(day as nat, 2))
}

/// The calendar is the Gregorian one: thirty days have April, June, September
/// and November, twenty-eight February, or twenty-nine in a leap year, and the
/// rest thirty-one; and a leap year is one that four divides, but not a hundred,
/// unless four hundred does.
pub proof fn months_have_their_days(year: int)
    ensures
        days_in_month(year, 1) == 31 && days_in_month(year, 3) == 31 && days_in_month(year, 5) == 31,
        days_in_month(year, 7) == 31 && days_in_month(year, 8) == 31,
        days_in_month(year, 10) == 31 && days_in_month(year, 12) == 31,
        days_in_month(year, 4) == 30 && days_in_month(year, 6) == 30,
        days_in_month(year, 9) == 30 && days_in_month(year, 11) == 30,
        year % 4 != 0 ==> days_in_month(year, 2) == 28,
        year % 4 == 0 && year % 100 != 0 ==> days_in_month(year, 2) == 29,
        year % 100 == 0 && year % 400 != 0 ==> days_in_month(year, 2) == 28,
        year % 400 == 0 ==> days_in_month(year, 2) == 29,
        forall|month: int, day: int| #[trigger]
            is_date(year, month, day) <==> 1 <= month && month <= 12 && 1 <= day && day
                <= days_in_month(year, month),
{
}

/// Days are counted one by one, from the first day of 1970: after each day of a
/// month comes the next, after the last one the first of the next month, and
/// after the last day of a year the first of the next year.
pub proof fn each_day_follows_the_last(year: int, month: int, day: int)
    requires
        1 <= month <= 12,
    ensures
        epoch_day(1970, 1, 1) == 0,
        epoch_day(year, month, day + 1) == epoch_day(year, month, day) + 1,
        month < 12 ==> epoch_day(year, month + 1, 1) == epoch_day(
            year,
            month,
            days_in_month(year, month),
        ) + 1,
        epoch_day(year + 1, 1, 1) == epoch_day(year, 12, 31) + 1,
{
    reveal_with_fuel(month_start, 14);
    lemma_year_length(year);
}

/// The date of an instant is that of the day it is in, and a day has 86400
/// seconds.
pub proof fn an_instant_has_the_date_of_its_day(micros: int, year: int, month: int, day: int)
    requires
        is_date(year, month, day),
        epoch_day(year, month, day) * 86_400_000_000 <= micros,
        micros < (epoch_day(year, month, day) + 1) * 86_400_000_000,
    ensures
        utc_date(micros) == date_text(year, month, day),
{
    let n = epoch_day(year, month, day);
    vstd::arithmetic::div_mod::lemma_fundamental_div_mod_converse(
        micros,
        86_400_000_000,
        n,
        micros - n * 86_400_000_000,
    );
    assert(falls_on(micros, year, month, day));
    let (y, m, d) = choose|y: int, m: int, d: int| falls_on(micros, y, m, d);
    an_instant_falls_on_one_date(micros, year, month, day, y, m, d);
}

// ─── Instants ───────────────────────────────────────────────────────────────

/// The first instant that `chrono` represents: the start of the year -262143.
pub const MIN_MICROS: i64 = -8_334_601_228_800_000_000;

/// The last microsecond that `chrono` represents: the end of the year 262142.
pub const MAX_MICROS: i64 = 8_210_266_876_799_999_999;

/// Instants run from the first day of the year -262143 to the last one of the
/// year 262142.
pub proof fn instants_span_the_years_of_the_calendar()
    ensures
        MIN_MICROS == epoch_day(-262_143, 1, 1) * 86_400_000_000,
        MAX_MICROS + 1 == epoch_day(262_143, 1, 1) * 86_400_000_000,
{
}

/// An instant in UTC, to the microsecond.
#[derive(Debug, Clone, Copy)]
pub struct UtcTime {
    micros: i64,
}

/// The view of an instant is its distance from 1970-01-01T00:00:00Z, in
/// microseconds.
impl View for UtcTime {
    type V = int;

    closed spec fn view(&self) -> int {
        self.micros as int
    }
}

impl UtcTime {
    #[verifier::type_invariant]
    spec fn well_formed(self) -> bool {
        MIN_MICROS <= self.micros <= MAX_MICROS
    }

    /// The instant `micros` microseconds after 1970-01-01T00:00:00Z, unless it
    /// is out of range.
    pub fn from_micros(micros: i64) -> (r: Option<UtcTime>)
        ensures
            r is Some <==> MIN_MICROS <= micros <= MAX_MICROS,
            r matches Some(t) ==> t@ == micros,
    {
        if MIN_MICROS <= micros && micros <= MAX_MICROS {
            Some(UtcTime { micros })
        } else {
            None
        }
    }

    /// Microseconds since 1970-01-01T00:00:00Z.
    pub fn timestamp_micros(&self) -> (r: i64)
        ensures
            r == self@,
    {
        self.micros
    }

    /// The date, as `YYYY-MM-DD`.
    pub fn date(&self) -> (r: String)
        ensures
            r@ == utc_date(self@),
    {
        proof {
            use_type_invariant(self);
        }
        let text: String = format_date(self.micros, "%Y-%m-%d");
        proof {
            let (y1, m1, d1) = choose|y: int, m: int, d: int|
                falls_on(self@, y, m, d) && text@ == date_text(y, m, d);
            let (y2, m2, d2) = choose|y: int, m: int, d: int| falls_on(self@, y, m, d);
            an_instant_falls_on_one_date(self@, y1, m1, d1, y2, m2, d2);
        }
        text
    }
}

/// `DateTime::from_timestamp_micros`, and `DateTime::format` on what it gives.
///
/// The instant is in the range that `chrono` represents, and the pattern is the
/// one for a date. The text is then the date on which the instant falls in UTC,
/// in the proleptic Gregorian calendar: the year in four digits (signed where
/// it is outside 0 to 9999), the month and the day in two.
#[verifier::external_body]
fn format_date(micros: i64, pattern: &str) -> (r: String)
    requires
        MIN_MICROS <= micros <= MAX_MICROS,
        pattern@ == "%Y-%m-%d"@,
    ensures
        is_date_of(r@, micros as int),
{
    DateTime::from_timestamp_micros(micros).unwrap().format(pattern).to_string()
}

/// What `DateTime::parse_from_rfc3339` makes of `text`: the instant it denotes,
/// in microseconds since 1970-01-01T00:00:00Z, or nothing where it is not an
/// RFC 3339 timestamp.
pub uninterp spec fn rfc3339_micros(text: Seq<char>) -> Option<i64>;

/// `DateTime::parse_from_rfc3339`, as microseconds since 1970-01-01T00:00:00Z.
///
/// The result depends on the text alone.
#[verifier::external_body]
pub(crate) fn parse_rfc3339(text: &str) -> (r: Option<i64>)
    ensures
        r == rfc3339_micros(text@),
{
    match DateTime::parse_from_rfc3339(text) {
        Ok(instant) => Some(instant.with_timezone(&Utc).timestamp_micros()),
        Err(_) => None,
    }
}

} // verus!
