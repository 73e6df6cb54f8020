//! What a run is asked for.

use vstd::prelude::*;
use crate::date::{date_format, date_window, midnight_millis, window_of, DateError};

verus! {

/// What a run is asked for.
#[derive(Debug)]
pub struct StatisticArgs {
    /// The first day of the window, as year-month-day.
    pub start: String,
    /// The last day of the window, as year-month-day.
    pub end: String,
    /// Where the repository is.
    pub input: String,
    /// Whether the report has a row for each author.
    pub author: bool,
}

impl StatisticArgs {
    /// The window of dates that the run is asked for, in seconds since
    /// the Unix epoch.
    ///
    /// It is an error if one of the two dates is no date, or if the
    /// window ends before it starts.
    pub fn window(&self) -> (window: Result<(u64, u64), DateError>)
        ensures
            window == window_of(
                midnight_millis(self.start@, date_format()),
                midnight_millis(self.end@, date_format()),
            ),
    {
        date_window(self.start.as_str(), self.end.as_str())
    }
}

} // verus!
