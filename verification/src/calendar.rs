//! Dates as day numbers.
//!
//! A date is held as its day number in the proleptic Gregorian calendar, with
//! January 1 of year 1 as day 1, which is what chrono's `num_days_from_ce`
//! counts. Going a day forward is adding one, the days between two dates are a
//! difference of integers, and chrono is asked only to read and write the
//! `YYYY-MM-DD` text.

use chrono::Datelike;
use vstd::prelude::*;

verus! {

/// The `YYYY-MM-DD` text chrono writes for a day, or none when the day lies
/// outside the dates chrono can represent.
pub uninterp spec fn day_text(day: i32) -> Option<Seq<char>>;

/// The day that chrono reads from a `YYYY-MM-DD` text, or none when the text
/// is not a date.
pub uninterp spec fn text_day(s: Seq<char>) -> Option<i32>;

/// Calls `NaiveDate::from_num_days_from_ce_opt`, then writes the date with
/// `NaiveDate`'s `Display`. The text is named `day_text`; it is none exactly when
/// chrono has no date for the day.
#[verifier::external_body]
pub(crate) fn format_day(day: i32) -> (r: Option<String>)
    ensures
        match r {
            Some(s) => day_text(day) == Some(s@),
            None => day_text(day) is None,
        },
{
    match chrono::NaiveDate::from_num_days_from_ce_opt(day) {
        Some(date) => Some(date.to_string()),
        None => None,
    }
}

/// Calls `NaiveDate`'s `FromStr`, then `Datelike::num_days_from_ce`. The day is
/// named `text_day`; it is none exactly when chrono refuses the text.
#[verifier::external_body]
pub(crate) fn parse_day(s: &str) -> (r: Option<i32>)
    ensures
        r == text_day(s@),
{
    match s.parse::<chrono::NaiveDate>() {
        Ok(date) => Some(date.num_days_from_ce()),
        Err(_) => None,
    }
}

/// Day 1, January 1 of year 1, is a Monday, so a day is a Monday exactly when
/// it is a whole number of weeks after it.
pub open spec fn is_monday(day: int) -> bool {
    (day - 1) % 7 == 0
}

/// Whether a day is a Monday.
pub fn monday(day: i32) -> (r: bool)
    ensures
        r == is_monday(day as int),
{
    // Shifted by a multiple of seven so that the remainder is taken of a
    // positive number.
    let shifted: i64 = day as i64 - 1 + 7 * 536_870_912;
    proof {
        assert(shifted >= 0);
        assert((day as int - 1) % 7 == shifted as int % 7) by (nonlinear_arith)
            requires
                shifted == day as int - 1 + 7 * 536_870_912,
        ;
    }
    shifted % 7 == 0
}

/// The Monday on or before a day.
pub open spec fn week_start(day: int) -> int {
    day - (day - 1) % 7
}

} // verus!
