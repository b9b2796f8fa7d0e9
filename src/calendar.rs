//! The proleptic Gregorian calendar as spec functions, and the arithmetic facts
//! that tie calendar fields to a count of days since 1970-01-01.

use vstd::arithmetic::div_mod::lemma_fundamental_div_mod_converse;
use vstd::prelude::*;

verus! {

/// Gregorian leap-year rule.
pub open spec fn is_leap(y: int) -> bool {
    y % 4 == 0 && (y % 100 != 0 || y % 400 == 0)
}

/// Leap years in `[1970, y)`, for `y >= 1970`.
pub open spec fn leap_years_before(y: int) -> int {
    (y - 1969) / 4 - (y - 1901) / 100 + (y - 1601) / 400
}

/// Days from 1970-01-01 to January 1st of `y`.
pub open spec fn days_before_year(y: int) -> int {
    365 * (y - 1970) + leap_years_before(y)
}

/// Days of the months before month `m` (1 = January) in a common year.
pub open spec fn common_days_before_month(m: int) -> int {
    if m <= 1 { 0 }
    else if m == 2 { 31 }
    else if m == 3 { 59 }
    else if m == 4 { 90 }
    else if m == 5 { 120 }
    else if m == 6 { 151 }
    else if m == 7 { 181 }
    else if m == 8 { 212 }
    else if m == 9 { 243 }
    else if m == 10 { 273 }
    else if m == 11 { 304 }
    else if m == 12 { 334 }
    else { 365 }
}

/// Days from January 1st of `y` to the first day of month `m`.
pub open spec fn days_before_month(y: int, m: int) -> int {
    common_days_before_month(m) + if m > 2 && is_leap(y) { 1int } else { 0int }
}

/// Number of days of month `m` in year `y`.
pub open spec fn month_length(y: int, m: int) -> int {
    days_before_month(y, m + 1) - days_before_month(y, m)
}

/// Days from 1970-01-01 to the given calendar day.
pub open spec fn days_from_civil(y: int, m: int, d: int) -> int {
    days_before_year(y) + days_before_month(y, m) + d - 1
}

/// Weekday of the day that lies `days` days after 1970-01-01, a Thursday:
/// 1 is Monday, 7 is Sunday.
pub open spec fn weekday_of(days: int) -> int {
    (days + 3) % 7 + 1
}

/// Days from March 1st of a year to the first day of the `i`-th month counted from
/// March (0 is March, 10 is January of the next year, 12 is the next March 1st), in
/// a span whose February has 29 days.
pub open spec fn days_before_march_month(i: int) -> int {
    if i <= 0 { 0 }
    else if i == 1 { 31 }
    else if i == 2 { 61 }
    else if i == 3 { 92 }
    else if i == 4 { 122 }
    else if i == 5 { 153 }
    else if i == 6 { 184 }
    else if i == 7 { 214 }
    else if i == 8 { 245 }
    else if i == 9 { 275 }
    else if i == 10 { 306 }
    else if i == 11 { 337 }
    else { 366 }
}

/// Executable form of the leap-year rule.
pub fn is_leap_year(y: u16) -> (r: bool)
    ensures
        r == is_leap(y as int),
{
    y % 4 == 0 && (y % 100 != 0 || y % 400 == 0)
}

pub(crate) proof fn lemma_div_is(x: int, d: int, q: int)
    requires
        0 < d,
        q * d <= x < q * d + d,
    ensures
        x / d == q,
        x % d == x - q * d,
{
    lemma_fundamental_div_mod_converse(x, d, q, x - q * d);
}

/// Each year adds 365 days, and one more when it is a leap year.
pub proof fn lemma_days_before_next_year(y: int)
    ensures
        days_before_year(y + 1) == days_before_year(y) + 365 + if is_leap(y) { 1int } else { 0int },
{
    lemma_div_is(y, 4, y / 4);
    lemma_div_is(y, 100, y / 100);
    lemma_div_is(y, 400, y / 400);
    lemma_div_is(y - 1968, 4, y / 4 - 492);
    lemma_div_is(y - 1900, 100, y / 100 - 19);
    lemma_div_is(y - 1600, 400, y / 400 - 4);
    if y % 4 == 0 {
        lemma_div_is(y - 1969, 4, y / 4 - 493);
    } else {
        lemma_div_is(y - 1969, 4, y / 4 - 492);
    }
    if y % 100 == 0 {
        lemma_div_is(y - 1901, 100, y / 100 - 20);
    } else {
        lemma_div_is(y - 1901, 100, y / 100 - 19);
    }
    if y % 400 == 0 {
        lemma_div_is(y - 1601, 400, y / 400 - 5);
    } else {
        lemma_div_is(y - 1601, 400, y / 400 - 4);
    }
}

/// The leap-cycle decomposition: the shifted year (March to February) that starts
/// `146097 * qc + 36524 * c + 1461 * q + 365 * y` days after 1600-03-01 is the year
/// `1600 + 400 * qc + 100 * c + 4 * q + y`, and it has a 366th day only when the
/// February that ends it is a leap February.
pub proof fn lemma_cycle_start(qc: int, c: int, q: int, y: int)
    requires
        0 <= qc,
        0 <= c <= 3,
        0 <= q <= 24,
        0 <= y <= 3,
    ensures
        ({
            let yr = 1600 + 400 * qc + 100 * c + 4 * q + y;
            &&& days_before_year(yr) + days_before_month(yr, 3) + 135080 == 146097 * qc + 36524 * c
                + 1461 * q + 365 * y
            &&& (y == 3 && (q < 24 || c == 3)) ==> is_leap(yr + 1)
        }),
{
    let yr = 1600 + 400 * qc + 100 * c + 4 * q + y;
    let a = 100 * qc + 25 * c + q;
    if y == 0 {
        lemma_div_is(yr - 1969, 4, a - 93);
        lemma_div_is(yr, 4, a + 400);
    } else {
        lemma_div_is(yr - 1969, 4, a - 92);
        lemma_div_is(yr, 4, a + 400);
    }
    if 4 * q + y == 0 {
        lemma_div_is(yr - 1901, 100, 4 * qc + c - 4);
        lemma_div_is(yr, 100, 4 * qc + c + 16);
    } else {
        lemma_div_is(yr - 1901, 100, 4 * qc + c - 3);
        lemma_div_is(yr, 100, 4 * qc + c + 16);
    }
    if 100 * c + 4 * q + y == 0 {
        lemma_div_is(yr - 1601, 400, qc - 1);
        lemma_div_is(yr, 400, qc + 4);
    } else {
        lemma_div_is(yr - 1601, 400, qc);
        lemma_div_is(yr, 400, qc + 4);
    }
    if y == 3 {
        lemma_div_is(yr + 1, 4, a + 401);
        if q < 24 {
            lemma_div_is(yr + 1, 100, 4 * qc + c + 16);
        } else if c == 3 {
            lemma_div_is(yr + 1, 400, qc + 5);
        }
    }
}

/// Between two years lie at least 365 and at most 366 days per year.
pub proof fn lemma_days_between_years(a: int, b: int)
    requires
        a <= b,
    ensures
        days_before_year(a) + 365 * (b - a) <= days_before_year(b) <= days_before_year(a) + 366 * (b - a),
    decreases b - a,
{
    if a < b {
        lemma_days_between_years(a, b - 1);
        lemma_days_before_next_year(b - 1);
    }
}

/// A day that exists in its month lies within its year.
pub proof fn lemma_day_within_year(y: int, m: int, d: int)
    requires
        1 <= m <= 12,
        1 <= d <= month_length(y, m),
    ensures
        days_before_year(y) <= days_from_civil(y, m, d) < days_before_year(y + 1),
{
    lemma_days_before_next_year(y);
}

/// Two days that exist in their months and lie the same number of days after
/// 1970-01-01 are the same calendar day.
pub proof fn lemma_civil_days_injective(y1: int, m1: int, d1: int, y2: int, m2: int, d2: int)
    requires
        1 <= m1 <= 12,
        1 <= d1 <= month_length(y1, m1),
        1 <= m2 <= 12,
        1 <= d2 <= month_length(y2, m2),
        days_from_civil(y1, m1, d1) == days_from_civil(y2, m2, d2),
    ensures
        y1 == y2,
        m1 == m2,
        d1 == d2,
{
    lemma_day_within_year(y1, m1, d1);
    lemma_day_within_year(y2, m2, d2);
    if y1 < y2 {
        lemma_days_between_years(y1 + 1, y2);
    } else if y2 < y1 {
        lemma_days_between_years(y2 + 1, y1);
    }
}

} // verus!
