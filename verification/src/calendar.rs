//! Calendar dates as day numbers: 1 January of year 1 of the Gregorian calendar is day 1.
use chrono::Datelike;
use vstd::prelude::*;

verus! {

/// Day number of 1 January of the year -262143, the first date there is.
pub const MIN_DAY: i32 = -95_746_129;

/// Day number of 31 December of the year 262142, the last date there is.
pub const MAX_DAY: i32 = 95_745_399;

/// `day` is the number of a date.
pub open spec fn valid_day(day: int) -> bool {
    MIN_DAY <= day <= MAX_DAY
}

/// The ISO 8601 text of the date with number `day`, as `chrono::NaiveDate` displays it.
pub uninterp spec fn day_text(day: i32) -> Seq<char>;

/// The date `days` days before `day`, if both are dates.
///
/// Calls `chrono::NaiveDate::checked_sub_signed`, on the date that
/// `NaiveDate::from_num_days_from_ce_opt` gives for the day number and the span that
/// `TimeDelta::try_days` gives, and turns the date back with `num_days_from_ce`. Claimed of
/// them: day numbers count consecutive dates from `MIN_DAY` to `MAX_DAY`, and subtracting
/// goes back that many dates and fails exactly where it would leave them.
#[verifier::external_body]
pub(crate) fn days_before(day: i32, days: i64) -> (earlier: Option<i32>)
    ensures
        earlier == (if valid_day(day as int) && valid_day(day - days) {
            Some((day - days) as i32)
        } else {
            None
        }),
{
    let date = chrono::NaiveDate::from_num_days_from_ce_opt(day)?;
    let span = chrono::TimeDelta::try_days(days)?;
    let earlier = date.checked_sub_signed(span)?;
    Some(earlier.num_days_from_ce())
}

/// The date as text, `2026-01-31`.
///
/// Calls the `Display` implementation of `chrono::NaiveDate`, on the date that
/// `NaiveDate::from_num_days_from_ce_opt` gives for the day number. Claimed of it: the text
/// depends on the date alone.
#[verifier::external_body]
pub(crate) fn date_text(day: i32) -> (text: String)
    requires
        valid_day(day as int),
    ensures
        text@ == day_text(day),
{
    chrono::NaiveDate::from_num_days_from_ce_opt(day).unwrap().to_string()
}

} // verus!
