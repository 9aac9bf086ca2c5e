//! Calendar days, counted as chrono counts them, and the arithmetic on them
//! that chrono carries out.

use chrono::{Datelike, Days, NaiveDate};
use vstd::prelude::*;

verus! {

/// Day number of the first date that chrono can represent (January 1, -262143).
pub const MIN_DAY: i32 = -95_746_129;

/// Day number of the last date that chrono can represent (December 31, 262142).
pub const MAX_DAY: i32 = 95_745_399;

/// Seconds in one calendar day.
pub const SECONDS_PER_DAY: i64 = 86_400;

/// The day number that chrono gives to the calendar date `year`-`month`-`day`
/// (January 1 of year 1 is day 1), or `None` where chrono knows no such date.
pub uninterp spec fn ymd_day_number(year: int, month: int, day: int) -> Option<int>;

/// Whether `n` is the day number of a date that chrono can represent.
pub open spec fn is_day_number(n: int) -> bool {
    MIN_DAY <= n <= MAX_DAY
}

/// A day of the proleptic Gregorian calendar, held as its day number.
#[derive(Clone, Copy, Debug, PartialEq, Eq, Structural)]
pub struct CalendarDate {
    pub days: i32,
}

impl View for CalendarDate {
    type V = int;

    open spec fn view(&self) -> int {
        self.days as int
    }
}

/// `NaiveDate::from_ymd_opt` followed by `Datelike::num_days_from_ce`: the
/// day number of a calendar date. The contract names the number and claims
/// that it lies between the numbers of `NaiveDate::MIN` and `NaiveDate::MAX`.
#[verifier::external_body]
fn chrono_day_number(year: i32, month: u32, day: u32) -> (r: Option<i32>)
    ensures
        r matches Some(n) ==> ymd_day_number(year as int, month as int, day as int) == Some(
            n as int,
        ) && is_day_number(n as int),
        r is None ==> ymd_day_number(year as int, month as int, day as int) is None,
{
    NaiveDate::from_ymd_opt(year, month, day).map(|d| d.num_days_from_ce())
}

/// `NaiveDate::succ_opt` on the date with day number `days`: the next day,
/// and `None` exactly on the last representable date.
#[verifier::external_body]
fn chrono_succ(days: i32) -> (r: Option<i32>)
    requires
        is_day_number(days as int),
    ensures
        r == if days < MAX_DAY {
            Some((days + 1) as i32)
        } else {
            None
        },
{
    NaiveDate::from_num_days_from_ce_opt(days).unwrap().succ_opt().map(|d| d.num_days_from_ce())
}

/// `NaiveDate::checked_add_days` on the date with day number `days`: the
/// date `count` days later, and `None` exactly where that date lies past the
/// last representable one.
#[verifier::external_body]
fn chrono_add_days(days: i32, count: u64) -> (r: Option<i32>)
    requires
        is_day_number(days as int),
    ensures
        r == if days + count <= MAX_DAY {
            Some((days + count) as i32)
        } else {
            None
        },
{
    NaiveDate::from_num_days_from_ce_opt(days).unwrap().checked_add_days(Days::new(count)).map(
        |d| d.num_days_from_ce(),
    )
}

/// `NaiveDate::signed_duration_since` followed by `TimeDelta::num_seconds`:
/// the whole days from `from` to `to`, in seconds.
#[verifier::external_body]
fn chrono_seconds_between(from: i32, to: i32) -> (r: i64)
    requires
        is_day_number(from as int),
        is_day_number(to as int),
    ensures
        r == (to - from) * SECONDS_PER_DAY,
{
    let start = NaiveDate::from_num_days_from_ce_opt(from).unwrap();
    let end = NaiveDate::from_num_days_from_ce_opt(to).unwrap();
    end.signed_duration_since(start).num_seconds()
}

impl CalendarDate {
    /// Whether the date is one that chrono can represent.
    pub open spec fn wf(self) -> bool {
        is_day_number(self@)
    }

    /// The date with day number `days`, where there is one.
    pub fn from_day_number(days: i32) -> (r: Option<CalendarDate>)
        ensures
            r == if is_day_number(days as int) {
                Some(CalendarDate { days })
            } else {
                None
            },
    {
        if MIN_DAY <= days && days <= MAX_DAY {
            Some(CalendarDate { days })
        } else {
            None
        }
    }

    /// The calendar date `year`-`month`-`day`, where it exists.
    pub fn from_ymd_opt(year: i32, month: u32, day: u32) -> (r: Option<CalendarDate>)
        ensures
            r matches Some(d) ==> d.wf() && ymd_day_number(year as int, month as int, day as int)
                == Some(d@),
            r is None <==> ymd_day_number(year as int, month as int, day as int) is None,
    {
        match chrono_day_number(year, month, day) {
            Some(days) => Some(CalendarDate { days }),
            None => None,
        }
    }

    /// The day number.
    pub fn day_number(&self) -> (r: i32)
        ensures
            r == self@,
    {
        self.days
    }

    /// The next day; `None` on the last representable date.
    pub fn succ_opt(&self) -> (r: Option<CalendarDate>)
        requires
            self.wf(),
        ensures
            r == if self@ < MAX_DAY {
                Some(CalendarDate { days: (self@ + 1) as i32 })
            } else {
                None
            },
    {
        match chrono_succ(self.days) {
            Some(days) => Some(CalendarDate { days }),
            None => None,
        }
    }

    /// The date `count` days later; `None` where it is past the last
    /// representable date.
    pub fn checked_add_days(&self, count: u64) -> (r: Option<CalendarDate>)
        requires
            self.wf(),
        ensures
            r == if self@ + count <= MAX_DAY {
                Some(CalendarDate { days: (self@ + count) as i32 })
            } else {
                None
            },
    {
        match chrono_add_days(self.days, count) {
            Some(days) => Some(CalendarDate { days }),
            None => None,
        }
    }

    /// The time from `earlier` to this date, in seconds; negative where
    /// `earlier` is the later of the two.
    pub fn seconds_since(&self, earlier: &CalendarDate) -> (r: i64)
        requires
            self.wf(),
            earlier.wf(),
        ensures
            r == (self@ - earlier@) * SECONDS_PER_DAY,
    {
        chrono_seconds_between(earlier.days, self.days)
    }

    /// Whether this date comes before `other`.
    pub fn is_before(&self, other: &CalendarDate) -> (r: bool)
        ensures
            r == (self@ < other@),
    {
        self.days < other.days
    }
}

} // verus!
