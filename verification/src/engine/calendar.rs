//! Dates of the civil calendar, in Coordinated Universal Time.

use crate::clock;
use crate::domain::fs::Stamp;
use crate::text;
use vstd::prelude::*;

verus! {

/// Whether a year has a leap day.
pub open spec fn is_leap(y: int) -> bool {
    y % 4 == 0 && (y % 100 != 0 || y % 400 == 0)
}

/// How many days there are from 1 January 1970 to 1 January of a year.
pub open spec fn days_to_year(y: int) -> int {
    365 * (y - 1970) + ((y - 1) / 4 - (y - 1) / 100 + (y - 1) / 400) - 477
}

/// How many days a year has.
pub open spec fn year_len(y: int) -> int {
    if is_leap(y) {
        366
    } else {
        365
    }
}

/// How many days a month has.
pub open spec fn month_len(y: int, m: int) -> int {
    if m == 2 {
        if is_leap(y) {
            29
        } else {
            28
        }
    } else if m == 4 || m == 6 || m == 9 || m == 11 {
        30
    } else {
        31
    }
}

/// How many days of a year come before a month.
pub open spec fn days_to_month(y: int, m: int) -> int
    decreases m,
{
    if m <= 1 {
        0
    } else {
        days_to_month(y, m - 1) + month_len(y, m - 1)
    }
}

/// How many days there are from 1 January 1970 to a date.
pub open spec fn day_number(y: int, m: int, d: int) -> int {
    days_to_year(y) + days_to_month(y, m) + d - 1
}

/// Whether a date is one of the calendar.
pub open spec fn is_date(y: int, m: int, d: int) -> bool {
    1 <= m <= 12 && 1 <= d <= month_len(y, m)
}

/// The days of one year after another.
proof fn lemma_next_year(y: int)
    ensures
        days_to_year(y + 1) == days_to_year(y) + year_len(y),
{
}

/// Four hundred years have the same number of days wherever they begin.
proof fn lemma_era(y: int, n: int)
    ensures
        days_to_year(y + 400 * n) == days_to_year(y) + 146097 * n,
{
    assert((y + 400 * n - 1) / 4 == (y - 1) / 4 + 100 * n);
    assert((y + 400 * n - 1) / 100 == (y - 1) / 100 + 4 * n);
    assert((y + 400 * n - 1) / 400 == (y - 1) / 400 + n);
}

/// The months of a year make up its days.
proof fn lemma_months(y: int)
    ensures
        days_to_month(y, 13) == year_len(y),
{
    reveal_with_fuel(days_to_month, 14);
}

/// A date and a time of day.
#[derive(Debug, Clone, Copy, PartialEq, Eq, Structural)]
pub struct Civil {
    pub year: u64,
    pub month: u64,
    pub day: u64,
    pub hour: u64,
    pub minute: u64,
    pub second: u64,
}

/// Tests for a leap day.
fn has_leap_day(y: u64) -> (r: bool)
    ensures
        r == is_leap(y as int),
{
    y % 4 == 0 && (y % 100 != 0 || y % 400 == 0)
}

/// How many days a month has.
fn length_of_month(y: u64, m: u64) -> (r: u64)
    ensures
        r as int == month_len(y as int, m as int),
{
    if m == 2 {
        if has_leap_day(y) {
            29
        } else {
            28
        }
    } else if m == 4 || m == 6 || m == 9 || m == 11 {
        30
    } else {
        31
    }
}

/// The date and time of day, so many seconds after the beginning of 1970.
pub fn civil_from_unix(secs: u64) -> (r: Civil)
    ensures
        is_date(r.year as int, r.month as int, r.day as int),
        r.hour < 24,
        r.minute < 60,
        r.second < 60,
        r.year >= 1970,
        day_number(r.year as int, r.month as int, r.day as int) * 86400 + r.hour * 3600 + r.minute
            * 60 + r.second == secs,
{
    let days: u64 = secs / 86400;
    let tod: u64 = secs % 86400;
    let era: u64 = days / 146097;
    let mut rest: u64 = days % 146097;
    let mut year: u64 = 1970 + 400 * era;
    proof {
        assert(days == era * 146097 + rest);
        lemma_era(1970, era as int);
        assert(days_to_year(1970) == 0);
    }
    let ghost first = year;
    while rest >= 366 || (rest >= 365 && !has_leap_day(year))
        invariant
            days_to_year(year as int) + rest == days,
            first <= year,
            year + rest / 365 <= first + 401,
            rest <= 146097,
            first <= 1970 + 400 * 126_268_000_000,
        decreases rest,
    {
        proof {
            lemma_next_year(year as int);
        }
        if has_leap_day(year) {
            rest = rest - 366;
        } else {
            rest = rest - 365;
        }
        year = year + 1;
    }
    let mut month: u64 = 1;
    let ghost in_year = rest;
    proof {
        lemma_months(year as int);
    }
    while rest >= length_of_month(year, month)
        invariant
            1 <= month <= 12,
            days_to_month(year as int, month as int) + rest == in_year,
            in_year < year_len(year as int),
            days_to_month(year as int, 13) == year_len(year as int),
        decreases rest,
    {
        proof {
            if month == 12 {
                assert(days_to_month(year as int, 13) == days_to_month(year as int, 12) + month_len(
                    year as int,
                    12,
                ));
            }
        }
        rest = rest - length_of_month(year, month);
        month = month + 1;
    }
    let day: u64 = rest + 1;
    Civil {
        year,
        month,
        day,
        hour: tod / 3600,
        minute: (tod % 3600) / 60,
        second: tod % 60,
    }
}

/// A date and time of day as a text, with milliseconds.
pub open spec fn stamp_text(c: Civil, millis: nat) -> Seq<char> {
    text::padded(c.year as nat, 4) + seq!['-'] + text::padded(c.month as nat, 2) + seq!['-']
        + text::padded(c.day as nat, 2) + seq!['T'] + text::padded(c.hour as nat, 2) + seq![':']
        + text::padded(c.minute as nat, 2) + seq![':'] + text::padded(c.second as nat, 2) + seq!['.']
        + text::padded(millis, 3) + seq!['Z']
}

/// Whether a date and time of day is that of a second after the beginning of
/// 1970.
pub open spec fn is_civil(c: Civil, secs: int) -> bool {
    &&& is_date(c.year as int, c.month as int, c.day as int)
    &&& c.hour < 24 && c.minute < 60 && c.second < 60
    &&& day_number(c.year as int, c.month as int, c.day as int) * 86400 + c.hour * 3600 + c.minute
        * 60 + c.second == secs
}

/// The whole seconds since the beginning of 1970; none before it.
pub open spec fn whole_seconds(t: Stamp) -> int {
    if t.secs < 0 {
        0
    } else {
        t.secs as int
    }
}

/// The milliseconds beyond the whole seconds.
pub open spec fn milliseconds(t: Stamp) -> nat {
    if t.secs < 0 {
        0
    } else {
        (t.nanos / 1_000_000) as nat
    }
}

/// RFC 3339 timestamp of a point in time, with millisecond precision. A point
/// before 1970 counts as its beginning.
pub fn rfc3339_from(t: Stamp) -> (r: String)
    ensures
        exists|c: Civil| #[trigger]
            is_civil(c, whole_seconds(t)) && r@ == stamp_text(c, milliseconds(t)),
{
    let secs: u64 = if t.secs < 0 {
        0
    } else {
        t.secs as u64
    };
    let millis: u64 = if t.secs < 0 {
        0
    } else {
        (t.nanos / 1_000_000) as u64
    };
    let c = civil_from_unix(secs);
    proof {
        assert(secs as int == whole_seconds(t));
        assert(millis as nat == milliseconds(t));
        assert(is_civil(c, whole_seconds(t)));
    }
    let mut out = text::padded_text(c.year, 4);
    out.push('-');
    out.append(&text::padded_text(c.month, 2));
    out.push('-');
    out.append(&text::padded_text(c.day, 2));
    out.push('T');
    out.append(&text::padded_text(c.hour, 2));
    out.push(':');
    out.append(&text::padded_text(c.minute, 2));
    out.push(':');
    out.append(&text::padded_text(c.second, 2));
    out.push('.');
    out.append(&text::padded_text(millis, 3));
    out.push('Z');
    proof {
        assert(out@ =~= stamp_text(c, millis as nat));
    }
    out
}

/// Whether a text is a time: that of a second after the beginning of 1970, with
/// milliseconds.
pub open spec fn is_time(ts: Seq<char>) -> bool {
    exists|c: Civil, secs: int, millis: nat| #[trigger]
        is_civil(c, secs) && millis < 1000 && ts == #[trigger] stamp_text(c, millis)
}

/// RFC 3339 timestamp of now, with millisecond precision.
pub fn rfc3339_now() -> (r: String)
    ensures
        is_time(r@),
{
    let t = clock::now();
    let r = rfc3339_from(t);
    proof {
        let c = choose|c: Civil| #[trigger]
            is_civil(c, whole_seconds(t)) && r@ == stamp_text(c, milliseconds(t));
        assert(is_civil(c, whole_seconds(t)) && milliseconds(t) < 1000);
    }
    r
}

/// A day has one date: two dates with the same number are the same.
pub proof fn law_date_is_unique(y1: int, m1: int, d1: int, y2: int, m2: int, d2: int)
    requires
        is_date(y1, m1, d1),
        is_date(y2, m2, d2),
        day_number(y1, m1, d1) == day_number(y2, m2, d2),
    ensures
        y1 == y2 && m1 == m2 && d1 == d2,
{
    lemma_within_year(y1, m1, d1);
    lemma_within_year(y2, m2, d2);
    if y1 < y2 {
        lemma_years_grow(y1 + 1, y2);
        lemma_next_year(y1);
    }
    if y2 < y1 {
        lemma_years_grow(y2 + 1, y1);
        lemma_next_year(y2);
    }
    if m1 < m2 {
        lemma_months_grow(y1, m1 + 1, m2);
    }
    if m2 < m1 {
        lemma_months_grow(y1, m2 + 1, m1);
    }
}

/// A date lies within its year.
proof fn lemma_within_year(y: int, m: int, d: int)
    requires
        is_date(y, m, d),
    ensures
        0 <= days_to_month(y, m) + d - 1 < year_len(y),
{
    lemma_months(y);
    lemma_months_grow(y, m + 1, 13);
    lemma_months_grow(y, 1, m);
    assert(days_to_month(y, m + 1) == days_to_month(y, m) + month_len(y, m));
}

/// Later years begin later.
proof fn lemma_years_grow(a: int, b: int)
    requires
        a <= b,
    ensures
        days_to_year(a) <= days_to_year(b),
    decreases b - a,
{
    if a < b {
        lemma_years_grow(a, b - 1);
        lemma_next_year(b - 1);
    }
}

/// Later months begin later.
proof fn lemma_months_grow(y: int, a: int, b: int)
    requires
        1 <= a <= b,
    ensures
        days_to_month(y, a) <= days_to_month(y, b),
    decreases b - a,
{
    if a < b {
        lemma_months_grow(y, a, b - 1);
    }
}

} // verus!
