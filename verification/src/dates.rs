//! Calendar-date utility: conversions between `YYYY-MM-DD` strings and day
//! numbers in the proleptic Gregorian calendar, and the schedule computation
//! that places day `k` of a plan `k - 1` days after its start date.
//!
//! The two conversions are done by chrono behind trusted wrappers; everything
//! built on them is verified.

use vstd::prelude::*;
use crate::errors::AppError;
use chrono::Datelike;

verus! {

/// The day count of the date a `YYYY-MM-DD` string denotes, in the proleptic
/// Gregorian calendar with January 1 of year 1 as day 1; `None` when the
/// string is not a valid date.  Names the result of chrono's
/// `NaiveDate::parse_from_str` combined with `num_days_from_ce`.
pub uninterp spec fn date_num(s: Seq<char>) -> Option<int>;

/// The `YYYY-MM-DD` rendering of day number `n`, or `None` when `n` lies
/// outside the range chrono's `NaiveDate` represents.  Names the result of
/// chrono's `NaiveDate::from_num_days_from_ce_opt` combined with its
/// `Display` implementation.
pub uninterp spec fn date_str(n: int) -> Option<Seq<char>>;

/// Relies on chrono's `NaiveDate::parse_from_str` with the `%Y-%m-%d` format
/// (`Err` on anything but a valid calendar date, consuming the whole string)
/// and `Datelike::num_days_from_ce` (days counted from January 1 of year 1).
#[verifier::external_body]
pub(crate) fn parse_date(s: &str) -> (r: Option<i32>)
    ensures
        date_num(s@) == match r {
            Some(v) => Some(v as int),
            None => None::<int>,
        },
{
    chrono::NaiveDate::parse_from_str(s, "%Y-%m-%d").ok().map(|d| d.num_days_from_ce())
}

/// Relies on chrono's `NaiveDate::from_num_days_from_ce_opt` (`None` outside
/// the supported year range) and the ISO-8601 `Display` form of `NaiveDate`.
#[verifier::external_body]
pub(crate) fn format_date(n: i32) -> (r: Option<String>)
    ensures
        (r is Some) == (date_str(n as int) is Some),
        r matches Some(s) ==> date_str(n as int) == Some(s@),
{
    chrono::NaiveDate::from_num_days_from_ce_opt(n).map(|d| d.to_string())
}

/// The date scheduled for day `day` of a plan starting at `start`:
/// `start + (day - 1)` days.  `None` when `start` is not a valid date or the
/// result is not representable.
pub open spec fn scheduled_date_spec(start: Seq<char>, day: int) -> Option<Seq<char>> {
    match date_num(start) {
        None => None,
        Some(n) => if i32::MIN <= n + day - 1 <= i32::MAX {
            date_str(n + day - 1)
        } else {
            None
        },
    }
}

/// The calendar date `day_number - 1` days after `start_date`, in the
/// proleptic Gregorian calendar.  Fails when `start_date` is not a valid
/// `YYYY-MM-DD` date, or the resulting date cannot be represented.
pub fn scheduled_date_for(start_date: &str, day_number: i32) -> (r: Result<String, AppError>)
    ensures
        match r {
            Ok(s) => scheduled_date_spec(start_date@, day_number as int) == Some(s@),
            Err(e) => scheduled_date_spec(start_date@, day_number as int) is None && e is Business,
        },
{
    match parse_date(start_date) {
        None => Err(AppError::Business(String::from_str("invalid date format, expected YYYY-MM-DD"))),
        Some(n) => {
            let t: i64 = n as i64 + day_number as i64 - 1;
            if t < i32::MIN as i64 || t > i32::MAX as i64 {
                Err(AppError::Business(String::from_str("scheduled date out of range")))
            } else {
                match format_date(t as i32) {
                    Some(s) => Ok(s),
                    None => Err(AppError::Business(String::from_str("scheduled date out of range"))),
                }
            }
        },
    }
}

} // verus!
