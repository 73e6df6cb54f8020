//! Dates of the calendar as seconds since the Unix epoch, and the
//! window between two of them.

use vstd::prelude::*;

verus! {

/// The milliseconds from the Unix epoch to the midnight with which the
/// day begins that `date` names in the format `format`, as `chrono`
/// reads dates without a time zone; `None` where `date` is no date in
/// that format.
pub uninterp spec fn midnight_millis(date: Seq<char>, format: Seq<char>) -> Option<i64>;

/// `NaiveDate::parse_from_str`, and the day's midnight as
/// milliseconds since the Unix epoch.
///
/// Claimed of them: the result depends on the date and the format
/// alone. It is `None` where `chrono` refuses the date.
#[verifier::external_body]
pub(crate) fn parse_midnight_millis(date: &str, format: &str) -> (millis: Option<i64>)
    ensures
        millis == midnight_millis(date@, format@),
{
    match chrono::NaiveDate::parse_from_str(date, format) {
        Ok(day) => Some(
            chrono::NaiveDateTime::new(day, chrono::NaiveTime::MIN).and_utc().timestamp_millis(),
        ),
        Err(_) => None,
    }
}

/// The format of the dates that bound a window: year, month and day.
pub open spec fn date_format() -> Seq<char> {
    "%Y-%m-%d"@
}

/// The whole seconds of `millis` milliseconds, and 0 where that is
/// less than one second.
pub open spec fn seconds_of(millis: i64) -> u64 {
    if millis >= 1000 {
        (millis / 1000) as u64
    } else {
        0
    }
}

/// The whole seconds of `millis` milliseconds, and 0 where that is
/// less than one second.
pub fn seconds_from_millis(millis: i64) -> (seconds: u64)
    ensures
        seconds == seconds_of(millis),
{
    if millis >= 1000 {
        (millis / 1000) as u64
    } else {
        0
    }
}

/// Why a date window cannot be used.
#[derive(Debug, Clone, Copy, PartialEq, Eq, Structural)]
pub enum DateError {
    /// The text is no date of the form year-month-day.
    NotADate,
    /// The window ends before it starts.
    EndBeforeStart,
}

/// The seconds from the Unix epoch to the start of the day `time`,
/// which is written as year-month-day; 0 for a day before the epoch.
pub fn unix_timestamp(time: &str) -> (seconds: Result<u64, DateError>)
    ensures
        match midnight_millis(time@, date_format()) {
            Some(millis) => seconds == Ok::<u64, DateError>(seconds_of(millis)),
            None => seconds == Err::<u64, DateError>(DateError::NotADate),
        },
{
    match parse_midnight_millis(time, "%Y-%m-%d") {
        Some(millis) => Ok(seconds_from_millis(millis)),
        None => Err(DateError::NotADate),
    }
}

/// Accepts the window from `start` to `end`, both in seconds, unless
/// it ends before it starts.
pub fn check_window(start: u64, end: u64) -> (checked: Result<(u64, u64), DateError>)
    ensures
        end < start ==> checked == Err::<(u64, u64), DateError>(DateError::EndBeforeStart),
        end >= start ==> checked == Ok::<(u64, u64), DateError>((start, end)),
{
    if end < start {
        Err(DateError::EndBeforeStart)
    } else {
        Ok((start, end))
    }
}

/// What `date_window` gives for the two dates as `chrono` read them.
pub open spec fn window_of(start: Option<i64>, end: Option<i64>) -> Result<(u64, u64), DateError> {
    match (start, end) {
        (Some(from), Some(to)) => if seconds_of(to) < seconds_of(from) {
            Err(DateError::EndBeforeStart)
        } else {
            Ok((seconds_of(from), seconds_of(to)))
        },
        _ => Err(DateError::NotADate),
    }
}

/// The window from the start of the day `start` to the start of the
/// day `end`, in seconds since the Unix epoch.
///
/// It is an error if one of the two is no date, or if the window ends
/// before it starts.
pub fn date_window(start: &str, end: &str) -> (window: Result<(u64, u64), DateError>)
    ensures
        window == window_of(
            midnight_millis(start@, date_format()),
            midnight_millis(end@, date_format()),
        ),
{
    let from = match unix_timestamp(start) {
        Ok(seconds) => seconds,
        Err(error) => {
            return Err(error);
        },
    };
    let to = match unix_timestamp(end) {
        Ok(seconds) => seconds,
        Err(error) => {
            return Err(error);
        },
    };
    check_window(from, to)
}

} // verus!
