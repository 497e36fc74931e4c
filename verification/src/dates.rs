//! Calendar dates, held as day numbers of the proleptic Gregorian calendar
//! (January 1 of year 1 is day 1, as chrono's `num_days_from_ce` counts).
//! Building, reading, writing and parsing dates, and the clock, are chrono's;
//! the library adds and compares day numbers.
use chrono::{Datelike, NaiveDate, Timelike, Utc};
use vstd::prelude::*;

use crate::format::UPDATED_TIME_FORMAT;
use crate::text::{digit_char, two_digits};

verus! {

/// The earliest year chrono's `NaiveDate` holds.
pub const MIN_YEAR: i32 = -262143;

/// The latest year chrono's `NaiveDate` holds.
pub const MAX_YEAR: i32 = 262142;

/// Leap years of the Gregorian calendar, extended to all years.
pub open spec fn is_leap_year(y: int) -> bool {
    y % 4 == 0 && (y % 100 != 0 || y % 400 == 0)
}

/// The number of days in month `m` of year `y`.
pub open spec fn days_in_month(y: int, m: int) -> int {
    if m == 2 {
        if is_leap_year(y) {
            29
        } else {
            28
        }
    } else if m == 4 || m == 6 || m == 9 || m == 11 {
        30
    } else {
        31
    }
}

/// Whether `y-m-d` names a day of the calendar.
pub open spec fn valid_ymd(y: int, m: int, d: int) -> bool {
    1 <= m <= 12 && 1 <= d <= days_in_month(y, m)
}

/// The days of year `y` before the first of month `m`.
pub open spec fn days_before_month(y: int, m: int) -> int
    decreases m,
{
    if m <= 1 {
        0
    } else {
        days_before_month(y, m - 1) + days_in_month(y, m - 1)
    }
}

/// The day number of `y-m-d`: January 1 of year 1 is day 1.
pub open spec fn days_from_ce(y: int, m: int, d: int) -> int {
    let p = y - 1;
    365 * p + p / 4 - p / 100 + p / 400 + days_before_month(y, m) + d
}

/// The day number of the earliest date chrono holds.
pub open spec fn min_day() -> int {
    days_from_ce(MIN_YEAR as int, 1, 1)
}

/// The day number of the latest date chrono holds.
pub open spec fn max_day() -> int {
    days_from_ce(MAX_YEAR as int, 12, 31)
}

/// `y-m-d` written as `%Y-%m-%d` writes a date of the years 0 to 9999.
pub open spec fn iso_text(y: int, m: int, d: int) -> Seq<char> {
    seq![
        digit_char((y / 1000) as nat),
        digit_char((y / 100 % 10) as nat),
        digit_char((y / 10 % 10) as nat),
        digit_char((y % 10) as nat),
        '-',
    ] + two_digits(m as nat) + seq!['-'] + two_digits(d as nat)
}

/// What chrono writes for a day number with the format `%Y-%m-%d`.
pub uninterp spec fn iso_date_text_of(day: i32) -> Seq<char>;

/// What chrono writes, with the format `pattern`, for the UTC date and time
/// `year-month-day hour:minute:second`.
pub uninterp spec fn utc_time_text_of(
    year: i32,
    month: u32,
    day: u32,
    hour: u32,
    minute: u32,
    second: u32,
    pattern: Seq<char>,
) -> Seq<char>;

/// What chrono's `NaiveDate::parse_from_str(s, "%Y-%m-%d")` reads from `s`,
/// as a day number.
pub uninterp spec fn iso_date_parse(s: Seq<char>) -> Option<i32>;

/// chrono's `NaiveDate::from_ymd_opt`, read as a day number through
/// `Datelike::num_days_from_ce`. chrono documents that it gives `None` for an
/// invalid month or day or a year out of its range, and that the day count
/// starts at January 1 of year 1 in the proleptic Gregorian calendar.
#[verifier::external_body]
pub(crate) fn civil_day_number(year: i32, month: u32, day: u32) -> (r: Option<i32>)
    ensures
        r == (if MIN_YEAR <= year <= MAX_YEAR && valid_ymd(year as int, month as int, day as int) {
            Some(days_from_ce(year as int, month as int, day as int) as i32)
        } else {
            None
        }),
{
    match NaiveDate::from_ymd_opt(year, month, day) {
        Some(date) => Some(date.num_days_from_ce()),
        None => None,
    }
}

/// chrono's `NaiveDate::from_num_days_from_ce_opt` followed by
/// `format("%Y-%m-%d")`. The claim: every day number between the earliest and
/// the latest date chrono holds has a date, the text is a function of the day
/// number, and for the years 0 to 9999 it is the year in four digits, the
/// month and the day in two, joined by `-`. What it writes for other years
/// (a sign and more digits) is left unsaid.
#[verifier::external_body]
pub(crate) fn iso_date_text(day: i32) -> (s: String)
    requires
        min_day() <= day <= max_day(),
    ensures
        s@ == iso_date_text_of(day),
        forall|y: int, m: int, d: int|
            0 <= y <= 9999 && valid_ymd(y, m, d) && days_from_ce(y, m, d) == day ==> s@
                == #[trigger] iso_text(y, m, d),
{
    NaiveDate::from_num_days_from_ce_opt(day).unwrap().format("%Y-%m-%d").to_string()
}

/// chrono's `NaiveDate::parse_from_str(s, "%Y-%m-%d")`, read as a day number.
/// The claim: the result is a function of the text, a date it reads lies in
/// chrono's range, and the text that `format("%Y-%m-%d")` writes for a date
/// of the years 0 to 9999 reads back as that date. What else its grammar
/// accepts is left unsaid.
#[verifier::external_body]
pub(crate) fn parse_iso_date(s: &str) -> (r: Option<i32>)
    ensures
        r == iso_date_parse(s@),
        r matches Some(day) ==> min_day() <= day <= max_day(),
        forall|y: int, m: int, d: int|
            0 <= y <= 9999 && valid_ymd(y, m, d) && s@ == #[trigger] iso_text(y, m, d) ==> r
                == Some(days_from_ce(y, m, d) as i32),
{
    match NaiveDate::parse_from_str(s, "%Y-%m-%d") {
        Ok(date) => Some(date.num_days_from_ce()),
        Err(_) => None,
    }
}

/// chrono's `Utc::now()`, read as its year and month. The claim: the year is
/// one chrono's dates hold and the month lies between 1 and 12, as
/// `Datelike::month` documents. The values depend on the clock.
#[verifier::external_body]
pub(crate) fn utc_now_year_month() -> (r: (i32, u32))
    ensures
        MIN_YEAR <= r.0 <= MAX_YEAR,
        1 <= r.1 <= 12,
{
    let now = Utc::now();
    (now.year(), now.month())
}

/// chrono's `Utc::now()`, read as the day number of its date. The claim: the
/// day lies in chrono's range. The value depends on the clock.
#[verifier::external_body]
pub(crate) fn utc_today_day_number() -> (r: i32)
    ensures
        min_day() <= r <= max_day(),
{
    Utc::now().date_naive().num_days_from_ce()
}

/// chrono's `Utc::now()`, read as its year, month, day, hour, minute and
/// second. The claim: a date chrono holds, an hour below 24, and a minute and
/// a second below 60, as `Timelike` documents. The values depend on the clock.
#[verifier::external_body]
pub(crate) fn utc_now_fields() -> (r: (i32, u32, u32, u32, u32, u32))
    ensures
        MIN_YEAR <= r.0 <= MAX_YEAR,
        valid_ymd(r.0 as int, r.1 as int, r.2 as int),
        r.3 < 24,
        r.4 < 60,
        r.5 < 60,
{
    let now = Utc::now();
    (now.year(), now.month(), now.day(), now.hour(), now.minute(), now.second())
}

/// chrono's `NaiveDate::from_ymd_opt` and `and_hms_opt`, taken as UTC with
/// `and_utc`, then written with `format(pattern)`. The claim: the text is a
/// function of the date, the time and the pattern. The date and time must be
/// ones chrono holds, and the pattern the library's own, which chrono accepts
/// (with a pattern it rejects, `to_string` panics).
#[verifier::external_body]
pub(crate) fn utc_time_text(year: i32, month: u32, day: u32, hour: u32, minute: u32, second: u32, pattern: &str) -> (s:
    String)
    requires
        MIN_YEAR <= year <= MAX_YEAR,
        valid_ymd(year as int, month as int, day as int),
        hour < 24,
        minute < 60,
        second < 60,
        pattern@ == UPDATED_TIME_FORMAT@,
    ensures
        s@ == utc_time_text_of(year, month, day, hour, minute, second, pattern@),
{
    let date = NaiveDate::from_ymd_opt(year, month, day).unwrap();
    date.and_hms_opt(hour, minute, second).unwrap().and_utc().format(pattern).to_string()
}

// ── Facts of the calendar ──────────────────────────────────────────────

proof fn lemma_div_step(y: int, k: int)
    requires
        k > 0,
    ensures
        y / k - (y - 1) / k == if y % k == 0 {
            1int
        } else {
            0int
        },
{
    vstd::arithmetic::div_mod::lemma_fundamental_div_mod(y, k);
    let q = y / k;
    let r = y % k;
    assert(0 <= r < k) by {
        vstd::arithmetic::div_mod::lemma_mod_bound(y, k);
    }
    if r > 0 {
        assert(y - 1 == q * k + (r - 1)) by (nonlinear_arith)
            requires
                y == k * q + r,
        ;
        vstd::arithmetic::div_mod::lemma_fundamental_div_mod_converse_div(y - 1, k, q, r - 1);
    } else {
        assert(y - 1 == (q - 1) * k + (k - 1)) by (nonlinear_arith)
            requires
                y == k * q + r,
                r == 0,
        ;
        vstd::arithmetic::div_mod::lemma_fundamental_div_mod_converse_div(y - 1, k, q - 1, k - 1);
    }
}

proof fn lemma_mod_multiple(y: int, k: int, j: int)
    requires
        k > 0,
        j > 0,
        y % (k * j) == 0,
    ensures
        y % k == 0,
{
    assert(k * j > 0) by (nonlinear_arith)
        requires
            k > 0,
            j > 0,
    ;
    vstd::arithmetic::div_mod::lemma_fundamental_div_mod(y, k * j);
    let q = y / (k * j);
    assert(y == (q * j) * k + 0) by (nonlinear_arith)
        requires
            y == (k * j) * q + y % (k * j),
            y % (k * j) == 0,
    ;
    vstd::arithmetic::div_mod::lemma_fundamental_div_mod_converse_mod(y, k, q * j, 0);
}

/// A year has 365 days, 366 in a leap year.
pub proof fn lemma_year_length(y: int)
    ensures
        days_from_ce(y + 1, 1, 1) == days_from_ce(y, 1, 1) + 365 + if is_leap_year(y) {
            1int
        } else {
            0int
        },
{
    lemma_div_step(y, 4);
    lemma_div_step(y, 100);
    lemma_div_step(y, 400);
    if y % 400 == 0 {
        lemma_mod_multiple(y, 100, 4);
        lemma_mod_multiple(y, 4, 100);
    } else if y % 100 == 0 {
        lemma_mod_multiple(y, 4, 25);
    }
}

proof fn lemma_month_offsets(y: int)
    ensures
        days_before_month(y, 4) == 90 + if is_leap_year(y) {
            1int
        } else {
            0int
        },
        days_before_month(y, 10) == 273 + if is_leap_year(y) {
            1int
        } else {
            0int
        },
        days_before_month(y, 12) == 334 + if is_leap_year(y) {
            1int
        } else {
            0int
        },
{
    reveal_with_fuel(days_before_month, 13);
}

proof fn lemma_within_year(y: int, m: int, d: int)
    requires
        valid_ymd(y, m, d),
    ensures
        days_from_ce(y, 1, 1) <= days_from_ce(y, m, d) < days_from_ce(y + 1, 1, 1),
{
    reveal_with_fuel(days_before_month, 13);
    lemma_year_length(y);
}

proof fn lemma_year_start_monotone(y1: int, y2: int)
    requires
        y1 <= y2,
    ensures
        days_from_ce(y1, 1, 1) <= days_from_ce(y2, 1, 1),
    decreases y2 - y1,
{
    if y1 < y2 {
        lemma_year_start_monotone(y1, y2 - 1);
        lemma_year_length(y2 - 1);
    }
}

/// Every date of chrono's years has a day number in chrono's range.
pub proof fn lemma_day_in_range(y: int, m: int, d: int)
    requires
        MIN_YEAR <= y <= MAX_YEAR,
        valid_ymd(y, m, d),
    ensures
        min_day() <= days_from_ce(y, m, d) <= max_day(),
{
    lemma_within_year(y, m, d);
    lemma_year_start_monotone(MIN_YEAR as int, y);
    lemma_year_start_monotone(y + 1, MAX_YEAR as int + 1);
    lemma_year_length(MAX_YEAR as int);
    lemma_month_offsets(MAX_YEAR as int);
}

/// The day numbers of chrono's earliest and latest dates.
pub proof fn lemma_day_range_values()
    ensures
        min_day() == -95746129,
        max_day() == 95745399,
{
    reveal_with_fuel(days_before_month, 13);
}

/// From October 1 of a year to April 30 of the next are 211 days, 212 when
/// the next year is a leap year.
pub proof fn lemma_october_to_april(y: int)
    ensures
        days_from_ce(y + 1, 4, 30) - days_from_ce(y, 10, 1) == 211 + if is_leap_year(y + 1) {
            1int
        } else {
            0int
        },
{
    lemma_year_length(y);
    lemma_month_offsets(y);
    lemma_month_offsets(y + 1);
}

proof fn lemma_date_from_month(y: int, m: int, k: int)
    requires
        1 <= m <= 12,
        days_from_ce(y, m, 1) <= k < days_from_ce(y + 1, 1, 1),
    ensures
        exists|mm: int, d: int| valid_ymd(y, mm, d) && #[trigger] days_from_ce(y, mm, d) == k,
    decreases 12 - m,
{
    let first = days_from_ce(y, m, 1);
    if k < first + days_in_month(y, m) {
        let d = k - first + 1;
        assert(valid_ymd(y, m, d) && days_from_ce(y, m, d) == k);
    } else if m == 12 {
        lemma_year_length(y);
        lemma_month_offsets(y);
    } else {
        assert(days_before_month(y, m + 1) == days_before_month(y, m) + days_in_month(y, m));
        lemma_date_from_month(y, m + 1, k);
    }
}

/// Every day from October 1 of a year to April 30 of the next is a date of
/// one of the two years.
pub proof fn lemma_window_day_has_date(y: int, k: int)
    requires
        days_from_ce(y, 10, 1) <= k <= days_from_ce(y + 1, 4, 30),
    ensures
        exists|yy: int, m: int, d: int|
            (yy == y || yy == y + 1) && valid_ymd(yy, m, d) && #[trigger] days_from_ce(yy, m, d) == k,
{
    lemma_within_year(y, 10, 1);
    lemma_within_year(y + 1, 4, 30);
    if k < days_from_ce(y + 1, 1, 1) {
        lemma_date_from_month(y, 1, k);
        let (m, d) = choose|m: int, d: int| valid_ymd(y, m, d) && #[trigger] days_from_ce(y, m, d) == k;
        assert(days_from_ce(y, m, d) == k);
    } else {
        lemma_date_from_month(y + 1, 1, k);
        let (m, d) = choose|m: int, d: int| valid_ymd(y + 1, m, d) && #[trigger] days_from_ce(y + 1, m, d) == k;
        assert(days_from_ce(y + 1, m, d) == k);
    }
}

} // verus!
