//! The calendar timestamp value and its conversions to and from Unix instants.

use crate::calendar::{
    days_before_march_month, days_before_month, days_before_year, days_from_civil, is_leap,
    is_leap_year, lemma_civil_days_injective, lemma_cycle_start, lemma_days_before_next_year,
    lemma_days_between_years, lemma_div_is, month_length, weekday_of,
};
use core::cmp::Ordering;
use vstd::prelude::*;

verus! {

/// First whole second that falls in the year 10000.
pub const SECONDS_LIMIT: u64 = 253402300800;

/// Nanoseconds in one second.
pub const NANOS_PER_SEC: u32 = 1000000000;

/// A calendar timestamp in UTC.
#[derive(Clone, Copy, Debug, PartialEq, Eq, Structural, Hash)]
pub struct LogDate {
    /// 0...999_999_999
    pub nano: u32,
    /// 0...59
    pub sec: u8,
    /// 0...59
    pub min: u8,
    /// 0...23
    pub hour: u8,
    /// 1...31
    pub day: u8,
    /// 1...12
    pub mon: u8,
    /// 1970...9999
    pub year: u16,
    /// 1...7, Monday first
    pub wday: u8,
}

impl LogDate {
    /// Each field lies in its numeric range (the month's real length aside).
    pub open spec fn fields_in_range(self) -> bool {
        &&& self.sec < 60
        &&& self.min < 60
        &&& self.hour < 24
        &&& 0 < self.day < 32
        &&& 0 < self.mon <= 12
        &&& 1970 <= self.year <= 9999
    }

    /// Days from 1970-01-01 to this value's calendar day.
    pub open spec fn epoch_days(self) -> int {
        days_from_civil(self.year as int, self.mon as int, self.day as int)
    }

    /// Whole seconds from 1970-01-01T00:00:00Z to this value.
    pub open spec fn epoch_secs(self) -> int {
        self.epoch_days() * 86400 + self.hour * 3600 + self.min * 60 + self.sec
    }

    /// The fields from which an instant is computed are in their domain.
    pub open spec fn has_instant(self) -> bool {
        1970 <= self.year && 1 <= self.mon <= 12 && (1 <= self.day || self.mon > 1)
    }

    /// Order by instant: whole seconds first, then nanoseconds.
    pub open spec fn instant_order(self, other: LogDate) -> Ordering {
        if self.epoch_secs() < other.epoch_secs() {
            Ordering::Less
        } else if self.epoch_secs() > other.epoch_secs() {
            Ordering::Greater
        } else if self.nano < other.nano {
            Ordering::Less
        } else if self.nano > other.nano {
            Ordering::Greater
        } else {
            Ordering::Equal
        }
    }

    /// The value names a real moment: fields in range, the day exists in its month,
    /// the nanosecond is below one second, and the weekday is that of the day.
    pub open spec fn is_real(self) -> bool {
        &&& self.fields_in_range()
        &&& self.nano < NANOS_PER_SEC
        &&& self.day <= month_length(self.year as int, self.mon as int)
        &&& self.wday == weekday_of(self.epoch_days())
    }

    /// The calendar value of the instant `secs` seconds and `nanos` nanoseconds after
    /// 1970-01-01T00:00:00Z.
    #[verifier::rlimit(30)]
    pub fn from_unix(secs: u64, nanos: u32) -> (r: LogDate)
        requires
            secs < SECONDS_LIMIT,
            nanos < NANOS_PER_SEC,
        ensures
            r.is_real(),
            r.epoch_secs() == secs,
            r.nano == nanos,
    {
        let days: u64 = secs / 86400;
        let secs_of_day: u64 = secs % 86400;
        // Counted from 1600-03-01, so that each 400-year cycle starts right after a
        // February 29th and every quantity below stays non-negative.
        let (shifted_year, day_of_year) = split_leap_cycles(days + 135080);
        let (idx, remdays) = march_month(day_of_year);
        let mday: u64 = remdays + 1;
        let mut year: u64 = shifted_year;
        let mon: u64 = if idx >= 10 {
            year = year + 1;
            idx as u64 - 9
        } else {
            idx as u64 + 3
        };
        proof {
            if idx >= 10 {
                lemma_days_before_next_year(shifted_year as int);
            }
        }
        let rest: u64 = secs_of_day % 3600;
        let r = LogDate {
            nano: nanos,
            sec: (rest % 60) as u8,
            min: (rest / 60) as u8,
            hour: (secs_of_day / 3600) as u8,
            day: mday as u8,
            mon: mon as u8,
            year: year as u16,
            wday: ((days + 3) % 7 + 1) as u8,
        };
        assert(r.epoch_days() == days);
        r
    }

    /// The instant of this value, as whole seconds and nanoseconds after
    /// 1970-01-01T00:00:00Z. The nanosecond field is carried over, so that the
    /// conversion undoes `from_unix` exactly.
    pub fn to_unix(&self) -> (r: (u64, u32))
        requires
            self.has_instant(),
        ensures
            r.0 == self.epoch_secs(),
            r.1 == self.nano,
    {
        let y: u64 = self.year as u64;
        let leap_years: u64 = (y - 1969) / 4 - (y - 1901) / 100 + (y - 1601) / 400;
        let mut ydays: u64 = match self.mon {
            1 => 0,
            2 => 31,
            3 => 59,
            4 => 90,
            5 => 120,
            6 => 151,
            7 => 181,
            8 => 212,
            9 => 243,
            10 => 273,
            11 => 304,
            _ => 334,
        };
        ydays = ydays + self.day as u64 - 1;
        if is_leap_year(self.year) && self.mon > 2 {
            ydays = ydays + 1;
        }
        let days: u64 = (y - 1970) * 365 + leap_years + ydays;
        let secs: u64 = self.sec as u64 + self.min as u64 * 60 + self.hour as u64 * 3600 + days
            * 86400;
        (secs, self.nano)
    }

    /// Compares two values by the instants they name.
    pub fn cmp(&self, other: &LogDate) -> (r: Ordering)
        requires
            self.has_instant(),
            other.has_instant(),
        ensures
            r == self.instant_order(*other),
    {
        let (a_secs, a_nanos) = self.to_unix();
        let (b_secs, b_nanos) = other.to_unix();
        if a_secs < b_secs {
            Ordering::Less
        } else if a_secs > b_secs {
            Ordering::Greater
        } else if a_nanos < b_nanos {
            Ordering::Less
        } else if a_nanos > b_nanos {
            Ordering::Greater
        } else {
            Ordering::Equal
        }
    }

    /// Compares two values by the instants they name; every pair is ordered.
    pub fn partial_cmp(&self, other: &LogDate) -> (r: Option<Ordering>)
        requires
            self.has_instant(),
            other.has_instant(),
        ensures
            r == Some(self.instant_order(*other)),
    {
        Some(self.cmp(other))
    }

    /// Whether the value names a real moment: each field in range (the nanosecond
    /// below one second), and converting the value to its instant and back gives
    /// the value itself.
    pub fn is_valid(&self) -> (r: bool)
        ensures
            r == self.is_real(),
    {
        if !(self.sec < 60 && self.min < 60 && self.hour < 24 && self.day > 0 && self.day < 32
            && self.mon > 0 && self.mon <= 12 && self.year >= 1970 && self.year <= 9999
            && self.nano < NANOS_PER_SEC) {
            return false;
        }
        let (secs, nanos) = self.to_unix();
        proof {
            lemma_in_range_before_limit(*self);
        }
        let back = LogDate::from_unix(secs, nanos);
        proof {
            if self.is_real() {
                lemma_instant_determines_date(back, *self);
            }
        }
        back == *self
    }
}

/// Two real values at the same instant are the same value: for real values,
/// equality of fields and equality of instants coincide.
#[verifier::rlimit(30)]
pub proof fn lemma_instant_determines_date(a: LogDate, b: LogDate)
    requires
        a.is_real(),
        b.is_real(),
        a.epoch_secs() == b.epoch_secs(),
        a.nano == b.nano,
    ensures
        a == b,
{
    let tod_a = a.hour * 3600 + a.min * 60 + a.sec;
    let tod_b = b.hour * 3600 + b.min * 60 + b.sec;
    lemma_div_is(a.epoch_secs(), 86400, a.epoch_days());
    lemma_div_is(b.epoch_secs(), 86400, b.epoch_days());
    assert(tod_a == tod_b);
    lemma_div_is(tod_a, 3600, a.hour as int);
    lemma_div_is(tod_b, 3600, b.hour as int);
    lemma_div_is(tod_a - a.hour * 3600, 60, a.min as int);
    lemma_div_is(tod_b - b.hour * 3600, 60, b.min as int);
    lemma_civil_days_injective(
        a.year as int,
        a.mon as int,
        a.day as int,
        b.year as int,
        b.mon as int,
        b.day as int,
    );
}

/// Real values compare equal by instant exactly when their fields are equal.
pub proof fn lemma_order_equal_iff_fields_equal(a: LogDate, b: LogDate)
    requires
        a.is_real(),
        b.is_real(),
    ensures
        (a.instant_order(b) == Ordering::Equal) <==> (a == b),
{
    if a.instant_order(b) == Ordering::Equal {
        lemma_instant_determines_date(a, b);
    }
}

/// A real value converted to its instant and back is the same value.
pub proof fn lemma_date_round_trip(d: LogDate, e: LogDate)
    requires
        d.is_real(),
        e.is_real(),
        e.epoch_secs() == d.epoch_secs(),
        e.nano == d.nano,
    ensures
        d.has_instant(),
        0 <= d.epoch_secs() < SECONDS_LIMIT,
        e == d,
{
    lemma_in_range_before_limit(d);
    lemma_instant_determines_date(d, e);
}

/// A value whose fields are in range lies before the year 10000.
proof fn lemma_in_range_before_limit(d: LogDate)
    requires
        d.fields_in_range(),
    ensures
        0 <= d.epoch_secs() < SECONDS_LIMIT,
{
    lemma_days_before_next_year(d.year as int);
    lemma_days_between_years(1970, d.year as int);
    lemma_days_between_years(d.year + 1, 10000);
}

/// Splits a day count from 1600-03-01 into the shifted year (March to February)
/// that holds the day and the day's index in it.
fn split_leap_cycles(shifted: u64) -> (r: (u64, u64))
    requires
        shifted <= 3067976,
    ensures
        1600 <= r.0 <= 9999,
        r.0 == 9999 ==> r.1 < 306,
        days_before_year(r.0 as int) + days_before_month(r.0 as int, 3) + 135080 + r.1 == shifted,
        r.1 < 365 + if is_leap(r.0 + 1) { 1int } else { 0int },
{
    let qc_cycles: u64 = shifted / 146097;
    let mut remdays: u64 = shifted % 146097;

    let mut c_cycles: u64 = remdays / 36524;
    if c_cycles == 4 {
        c_cycles = 3;
    }
    remdays = remdays - c_cycles * 36524;

    let mut q_cycles: u64 = remdays / 1461;
    if q_cycles == 25 {
        q_cycles = 24;
    }
    remdays = remdays - q_cycles * 1461;

    let mut remyears: u64 = remdays / 365;
    if remyears == 4 {
        remyears = 3;
    }
    remdays = remdays - remyears * 365;

    proof {
        lemma_cycle_start(qc_cycles as int, c_cycles as int, q_cycles as int, remyears as int);
    }
    (1600 + remyears + 4 * q_cycles + 100 * c_cycles + 400 * qc_cycles, remdays)
}

/// Finds the month, counted from March, that holds day `day_of_year` of a shifted
/// year, and the day's index in that month.
fn march_month(day_of_year: u64) -> (r: (usize, u64))
    requires
        day_of_year < 366,
    ensures
        r.0 < 12,
        r.1 + days_before_march_month(r.0 as int) == day_of_year,
        r.1 + days_before_march_month(r.0 as int) < days_before_march_month(r.0 + 1),
{
    let months: [u64; 12] = [31, 30, 31, 30, 31, 31, 30, 31, 30, 31, 31, 29];
    let mut remdays: u64 = day_of_year;
    let mut idx: usize = 0;
    while remdays >= months[idx]
        invariant
            idx < 12,
            day_of_year < 366,
            months@ == seq![31u64, 30, 31, 30, 31, 31, 30, 31, 30, 31, 31, 29],
            remdays + days_before_march_month(idx as int) == day_of_year,
        decreases 12 - idx,
    {
        remdays = remdays - months[idx];
        idx = idx + 1;
    }
    (idx, remdays)
}

} // verus!
