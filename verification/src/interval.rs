use crate::calendar::{Date, DateSpec};
use crate::config::KeyName;
use vstd::prelude::*;

verus! {

/// The length of the window of a report.
#[derive(Debug, Clone, Copy, PartialEq, Eq, Structural)]
pub enum ReportDuration {
    Day,
    Week,
    Month,
    Year,
}

impl ReportDuration {
    /// The name of the length, in lower case.
    pub open spec fn name(self) -> Seq<char> {
        match self {
            ReportDuration::Day => "day"@,
            ReportDuration::Week => "week"@,
            ReportDuration::Month => "month"@,
            ReportDuration::Year => "year"@,
        }
    }

    /// The name of the length, in lower case.
    pub fn to_string(&self) -> (s: &'static str)
        ensures
            s@ == self.name(),
    {
        match self {
            ReportDuration::Day => "day",
            ReportDuration::Week => "week",
            ReportDuration::Month => "month",
            ReportDuration::Year => "year",
        }
    }
}

/// The number of days by which `amount` windows that are counted in days
/// move a date; a month is counted in months instead.
pub open spec fn days_of(duration: ReportDuration, amount: int) -> int {
    match duration {
        ReportDuration::Day => amount,
        ReportDuration::Week => 7 * amount,
        ReportDuration::Month => 0,
        ReportDuration::Year => 365 * amount,
    }
}

/// The date moved by `amount` windows: by so many days, by seven times as
/// many days, by so many months of the calendar, or by 365 times as many
/// days. `None` where the number of days is more than an `i64` can hold, or
/// the date reached is out of range.
pub open spec fn shifted(duration: ReportDuration, date: DateSpec, amount: int) -> Option<DateSpec> {
    match duration {
        ReportDuration::Month => date.plus_months(amount),
        _ => {
            if i64::MIN <= days_of(duration, amount) <= i64::MAX {
                date.plus_days(days_of(duration, amount))
            } else {
                None
            }
        },
    }
}

/// Moves a date by `amount` windows, back where `amount` is negative.
pub fn shift_range(duration: &ReportDuration, date: Date, amount: i64) -> (moved: Option<Date>)
    ensures
        match moved {
            Some(d) => shifted(*duration, date@, amount as int) == Some(d@),
            None => shifted(*duration, date@, amount as int) is None,
        },
{
    match duration {
        ReportDuration::Day => date.plus_days(amount),
        ReportDuration::Week => match amount.checked_mul(7) {
            Some(days) => date.plus_days(days),
            None => None,
        },
        ReportDuration::Month => date.plus_months(amount),
        ReportDuration::Year => match amount.checked_mul(365) {
            Some(days) => date.plus_days(days),
            None => None,
        },
    }
}

/// A window of a report as contracts see it.
pub ghost struct IntervalSpec {
    pub date_start: DateSpec,
    pub date_end: DateSpec,
    pub duration: ReportDuration,
}

impl IntervalSpec {
    /// The window moved by `amount` of its lengths; `None` where its start
    /// or its end cannot be moved so far.
    pub open spec fn moved(self, amount: int) -> Option<IntervalSpec> {
        match (
            shifted(self.duration, self.date_start, amount),
            shifted(self.duration, self.date_end, amount),
        ) {
            (Some(date_start), Some(date_end)) => Some(
                IntervalSpec { date_start, date_end, duration: self.duration },
            ),
            _ => None,
        }
    }

    /// The window after a key: one length back, one length on, or as it is.
    pub open spec fn after_key(self, key: KeyName) -> Option<IntervalSpec> {
        match key {
            KeyName::PreviousPage => self.moved(-1),
            KeyName::NextPage => self.moved(1),
            _ => Some(self),
        }
    }
}

/// The window of a report: the days from its start up to, and not
/// including, its end.
#[derive(Debug, Clone, Copy)]
pub struct Interval {
    pub date_start: Date,
    pub date_end: Date,
    pub duration: ReportDuration,
}

impl View for Interval {
    type V = IntervalSpec;

    open spec fn view(&self) -> IntervalSpec {
        IntervalSpec {
            date_start: self.date_start@,
            date_end: self.date_end@,
            duration: self.duration,
        }
    }
}

impl Interval {
    /// The window of one length that starts at `start_date`; `None` where
    /// its end is out of range.
    pub fn new(start_date: Date, duration: ReportDuration) -> (interval: Option<Interval>)
        ensures
            match interval {
                Some(interval) => shifted(duration, start_date@, 1) == Some(interval@.date_end)
                    && interval@.date_start == start_date@ && interval@.duration == duration,
                None => shifted(duration, start_date@, 1) is None,
            },
    {
        match shift_range(&duration, start_date, 1) {
            Some(date_end) => Some(Interval { date_start: start_date, date_end, duration }),
            None => None,
        }
    }

    /// The window moved by `amount` of its lengths.
    pub fn moved(&self, amount: i64) -> (interval: Option<Interval>)
        ensures
            match interval {
                Some(interval) => self@.moved(amount as int) == Some(interval@),
                None => self@.moved(amount as int) is None,
            },
    {
        let date_start = match shift_range(&self.duration, self.date_start, amount) {
            Some(date) => date,
            None => {
                return None;
            },
        };
        match shift_range(&self.duration, self.date_end, amount) {
            Some(date_end) => Some(Interval { date_start, date_end, duration: self.duration }),
            None => None,
        }
    }

    /// The window after a key: one length back for the previous page, one
    /// length on for the next page, and as it is for any other key.
    pub fn handle(&self, key: &KeyName) -> (interval: Option<Interval>)
        ensures
            match interval {
                Some(interval) => self@.after_key(*key) == Some(interval@),
                None => self@.after_key(*key) is None,
            },
    {
        match key {
            KeyName::PreviousPage => self.moved(-1),
            KeyName::NextPage => self.moved(1),
            _ => Some(*self),
        }
    }
}

} // verus!
