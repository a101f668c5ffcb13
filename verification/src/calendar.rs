use crate::text::{append_padded, padded, push_char, signed_padded};
use chrono::Datelike;
use vstd::prelude::*;

verus! {

/// The smallest year that a `Date` can hold.
pub const MIN_YEAR: i32 = -262143;

/// The largest year that a `Date` can hold.
pub const MAX_YEAR: i32 = 262142;

/// Whether the year has a 29th of February in the proleptic Gregorian calendar.
pub open spec fn is_leap_year(year: int) -> bool {
    year % 4 == 0 && (year % 100 != 0 || year % 400 == 0)
}

/// The number of days of a month of the proleptic Gregorian calendar.
pub open spec fn days_in_month(year: int, month: int) -> int {
    if month == 2 {
        if is_leap_year(year) {
            29
        } else {
            28
        }
    } else if month == 4 || month == 6 || month == 9 || month == 11 {
        30
    } else {
        31
    }
}

/// Whether year, month and day name a day of the calendar within the range
/// of years that a `Date` can hold.
pub open spec fn is_calendar_date(year: int, month: int, day: int) -> bool {
    &&& MIN_YEAR <= year <= MAX_YEAR
    &&& 1 <= month <= 12
    &&& 1 <= day <= days_in_month(year, month)
}

/// The number of years with a 29th of February from the year 0 up to, and
/// not including, `year`; for a negative year, the number of such years
/// from `year` up to the year 0, taken negative.
pub open spec fn leap_years_before(year: int) -> int {
    (year + 3) / 4 - (year + 99) / 100 + (year + 399) / 400
}

/// The number of days from the start of the year 0 to the start of `year`.
pub open spec fn days_before_year(year: int) -> int {
    365 * year + leap_years_before(year)
}

/// The number of days from the start of a year to the start of one of its
/// months.
pub open spec fn days_before_month(year: int, month: int) -> int
    decreases month,
{
    if month <= 1 {
        0
    } else {
        days_before_month(year, month - 1) + days_in_month(year, month - 1)
    }
}

/// The number of days from 1 January of the year 0 to a date.
pub open spec fn day_number(year: int, month: int, day: int) -> int {
    days_before_year(year) + days_before_month(year, month) + day - 1
}

/// A calendar date as contracts see it.
pub ghost struct DateSpec {
    pub year: int,
    pub month: int,
    pub day: int,
}

impl DateSpec {
    pub open spec fn is_valid(self) -> bool {
        is_calendar_date(self.year, self.month, self.day)
    }

    /// Whether `self` is an earlier day than `other`.
    pub open spec fn precedes(self, other: DateSpec) -> bool {
        self.year < other.year || (self.year == other.year && (self.month < other.month || (
        self.month == other.month && self.day < other.day)))
    }

    /// Whether `self` is `other` or an earlier day.
    pub open spec fn not_after(self, other: DateSpec) -> bool {
        self == other || self.precedes(other)
    }

    /// The date written as one number: the year, then two places for the
    /// month and two for the day; with a minus sign before all of it where
    /// the year is negative.
    pub open spec fn sort_value(self) -> int {
        if self.year >= 0 {
            self.year * 10000 + self.month * 100 + self.day
        } else {
            -((-self.year) * 10000 + self.month * 100 + self.day)
        }
    }

    /// The date as `YYYY-MM-DD`.
    pub open spec fn text(self) -> Seq<char> {
        signed_padded(self.year, 4) + seq!['-'] + padded(self.month as nat, 2) + seq!['-'] + padded(
            self.day as nat,
            2,
        )
    }

    /// The date moved by a number of months, the day held back to the last
    /// day of the month reached where that month is shorter. `None` where
    /// the year reached is out of range.
    pub open spec fn plus_months(self, months: int) -> Option<DateSpec> {
        let total = self.year * 12 + (self.month - 1) + months;
        let year = total / 12;
        let month = total % 12 + 1;
        let last = days_in_month(year, month);
        if MIN_YEAR <= year <= MAX_YEAR {
            Some(DateSpec { year, month, day: if self.day > last { last } else { self.day } })
        } else {
            None
        }
    }

    /// The number of days from 1 January of the year 0 to the date.
    pub open spec fn number(self) -> int {
        day_number(self.year, self.month, self.day)
    }

    /// Whether `self` is the day of the calendar that lies `days` days
    /// after `from`, or before it where `days` is negative.
    pub open spec fn is_days_after(self, from: DateSpec, days: int) -> bool {
        self.is_valid() && self.number() == from.number() + days
    }

    /// The date moved by a number of days. `None` where the day reached is
    /// out of range.
    pub open spec fn plus_days(self, days: int) -> Option<DateSpec> {
        if exists|date: DateSpec| date.is_days_after(self, days) {
            Some(choose|date: DateSpec| date.is_days_after(self, days))
        } else {
            None
        }
    }

    /// The day of the week, counted from Monday as 0. The first day of the
    /// year 0 is a Saturday.
    pub open spec fn weekday(self) -> int {
        (self.number() + 5) % 7
    }
}

/// A year has 365 days, and 366 where it has a 29th of February.
pub proof fn lemma_year_length(year: int)
    ensures
        days_before_year(year + 1) - days_before_year(year) == if is_leap_year(year) {
            366int
        } else {
            365int
        },
        days_before_month(year, 12) + days_in_month(year, 12) == days_before_year(year + 1)
            - days_before_year(year),
{
    reveal_with_fuel(days_before_month, 13);
}

/// Later years start later.
pub proof fn lemma_years_in_order(first: int, second: int)
    requires
        first <= second,
    ensures
        days_before_year(first) <= days_before_year(second),
    decreases second - first,
{
    if first < second {
        lemma_year_length(second - 1);
        lemma_years_in_order(first, second - 1);
    }
}

/// A day of the calendar lies within its year, and later months of a year
/// start later.
pub proof fn lemma_day_in_year(year: int, month: int, day: int)
    requires
        1 <= month <= 12,
        1 <= day <= days_in_month(year, month),
    ensures
        days_before_year(year) <= day_number(year, month, day) < days_before_year(year + 1),
        forall|later: int|
            month < later <= 12 ==> days_before_month(year, month) + days_in_month(year, month)
                <= #[trigger] days_before_month(year, later),
{
    reveal_with_fuel(days_before_month, 13);
    lemma_year_length(year);
}

/// Earlier days of the calendar have smaller numbers: no two days have one
/// number.
pub proof fn lemma_day_numbers_in_order(first: DateSpec, second: DateSpec)
    requires
        first.is_valid(),
        second.is_valid(),
    ensures
        first.precedes(second) <==> first.number() < second.number(),
        first == second <==> first.number() == second.number(),
{
    lemma_day_in_year(first.year, first.month, first.day);
    lemma_day_in_year(second.year, second.month, second.day);
    if first.year < second.year {
        lemma_years_in_order(first.year + 1, second.year);
    } else if second.year < first.year {
        lemma_years_in_order(second.year + 1, first.year);
    }
}

/// The day that lies a number of days after another is the only one that
/// does.
pub proof fn lemma_plus_days(from: DateSpec, days: int, date: DateSpec)
    requires
        date.is_days_after(from, days),
    ensures
        from.plus_days(days) == Some(date),
{
    let found = choose|found: DateSpec| found.is_days_after(from, days);
    lemma_day_numbers_in_order(found, date);
}

/// The date written out with the names of its day of the week and of its
/// month, as the calendar library writes it.
pub uninterp spec fn verbose_date_text(year: int, month: int, day: int) -> Seq<char>;

/// The date written out: the name of the day of the week, the day of the
/// month, the name of the month, a comma, and the year.
///
/// Trusted: wraps `chrono::NaiveDate::format` with the pattern
/// `%A %e %B, %Y`. The contract names the result and claims nothing else.
#[verifier::external_body]
fn format_verbose(year: i32, month: u32, day: u32) -> (s: String)
    requires
        is_calendar_date(year as int, month as int, day as int),
    ensures
        s@ == verbose_date_text(year as int, month as int, day as int),
{
    chrono::NaiveDate::from_ymd_opt(year, month, day).unwrap().format("%A %e %B, %Y").to_string()
}

/// Whether the calendar library takes year, month and day for a date.
///
/// Trusted: wraps `chrono::NaiveDate::from_ymd_opt`, which gives a date
/// exactly where the day exists in the proleptic Gregorian calendar and the
/// year lies within the library's range of years.
#[verifier::external_body]
fn date_exists(year: i32, month: u32, day: u32) -> (b: bool)
    ensures
        b == is_calendar_date(year as int, month as int, day as int),
{
    chrono::NaiveDate::from_ymd_opt(year, month, day).is_some()
}

/// The day of the week of a date, counted from Monday as 0.
///
/// Trusted: wraps `chrono::NaiveDate::weekday` and
/// `chrono::Weekday::num_days_from_monday`. The contract claims that the
/// days of the week follow one another day by day, the first day of the
/// year 0 of the proleptic Gregorian calendar being a Saturday.
#[verifier::external_body]
fn weekday_from_monday(year: i32, month: u32, day: u32) -> (n: u32)
    requires
        is_calendar_date(year as int, month as int, day as int),
    ensures
        n as int == (day_number(year as int, month as int, day as int) + 5) % 7,
{
    chrono::NaiveDate::from_ymd_opt(year, month, day).unwrap().weekday().num_days_from_monday()
}

/// The date `days` days after the given one.
///
/// Trusted: wraps `chrono::TimeDelta::try_days` and
/// `chrono::NaiveDate::checked_add_signed`, which adds whole days to a
/// date and gives nothing where the date would be out of range. The
/// contract claims that the date that comes back is the day of the calendar
/// whose number is that of the given day and `days` more, and that nothing
/// comes back only where no day within the range of years has that number.
#[verifier::external_body]
fn add_days(year: i32, month: u32, day: u32, days: i64) -> (r: Option<(i32, u32, u32)>)
    requires
        is_calendar_date(year as int, month as int, day as int),
    ensures
        r matches Some(ymd) ==> is_calendar_date(ymd.0 as int, ymd.1 as int, ymd.2 as int)
            && day_number(ymd.0 as int, ymd.1 as int, ymd.2 as int) == day_number(
            year as int,
            month as int,
            day as int,
        ) + days,
        r is None ==> forall|y: int, m: int, d: int|
            is_calendar_date(y, m, d) ==> #[trigger] day_number(y, m, d) != day_number(
                year as int,
                month as int,
                day as int,
            ) + days,
{
    let delta = chrono::TimeDelta::try_days(days)?;
    let start = chrono::NaiveDate::from_ymd_opt(year, month, day).unwrap();
    let date = start.checked_add_signed(delta)?;
    Some((date.year(), date.month(), date.day()))
}

/// The date `months` months after the given one.
///
/// Trusted: wraps `chrono::NaiveDate::checked_add_months`, which keeps the
/// day of the month, takes the last day of the month reached where that
/// month is shorter, and gives nothing where the date would be out of range.
#[verifier::external_body]
fn add_months(year: i32, month: u32, day: u32, months: u32) -> (r: Option<(i32, u32, u32)>)
    requires
        is_calendar_date(year as int, month as int, day as int),
    ensures
        (DateSpec { year: year as int, month: month as int, day: day as int }).plus_months(
            months as int,
        ) == match r {
            Some(ymd) => Some(
                (DateSpec { year: ymd.0 as int, month: ymd.1 as int, day: ymd.2 as int }),
            ),
            None => None,
        },
{
    let start = chrono::NaiveDate::from_ymd_opt(year, month, day).unwrap();
    let date = start.checked_add_months(chrono::Months::new(months))?;
    Some((date.year(), date.month(), date.day()))
}

/// The date `months` months before the given one.
///
/// Trusted: wraps `chrono::NaiveDate::checked_sub_months`, which keeps the
/// day of the month, takes the last day of the month reached where that
/// month is shorter, and gives nothing where the date would be out of range.
#[verifier::external_body]
fn sub_months(year: i32, month: u32, day: u32, months: u32) -> (r: Option<(i32, u32, u32)>)
    requires
        is_calendar_date(year as int, month as int, day as int),
    ensures
        (DateSpec { year: year as int, month: month as int, day: day as int }).plus_months(
            -(months as int),
        ) == match r {
            Some(ymd) => Some(
                (DateSpec { year: ymd.0 as int, month: ymd.1 as int, day: ymd.2 as int }),
            ),
            None => None,
        },
{
    let start = chrono::NaiveDate::from_ymd_opt(year, month, day).unwrap();
    let date = start.checked_sub_months(chrono::Months::new(months))?;
    Some((date.year(), date.month(), date.day()))
}

/// A day of the calendar.
#[derive(Debug, Clone, Copy, PartialEq, Eq)]
pub struct Date {
    year: i32,
    month: u32,
    day: u32,
}

impl View for Date {
    type V = DateSpec;

    closed spec fn view(&self) -> DateSpec {
        DateSpec { year: self.year as int, month: self.month as int, day: self.day as int }
    }
}

impl Date {
    /// Every date is a day of the calendar.
    #[verifier::type_invariant]
    pub open spec fn valid(self) -> bool {
        self@.is_valid()
    }

    /// The date of the given year, month and day, which must exist.
    pub fn from_ymd(year: i32, month: u32, day: u32) -> (date: Date)
        requires
            is_calendar_date(year as int, month as int, day as int),
        ensures
            date@ == (DateSpec { year: year as int, month: month as int, day: day as int }),
    {
        Date { year, month, day }
    }

    /// The date of the given year, month and day, where there is one.
    pub fn from_ymd_opt(year: i32, month: u32, day: u32) -> (date: Option<Date>)
        ensures
            date is Some <==> is_calendar_date(year as int, month as int, day as int),
            date matches Some(d) ==> d@ == (DateSpec {
                year: year as int,
                month: month as int,
                day: day as int,
            }),
    {
        if date_exists(year, month, day) {
            Some(Date { year, month, day })
        } else {
            None
        }
    }

    pub fn year(&self) -> (year: i32)
        ensures
            year == self@.year,
            self@.is_valid(),
    {
        proof {
            use_type_invariant(self);
        }
        self.year
    }

    pub fn month(&self) -> (month: u32)
        ensures
            month == self@.month,
            self@.is_valid(),
    {
        proof {
            use_type_invariant(self);
        }
        self.month
    }

    pub fn day(&self) -> (day: u32)
        ensures
            day == self@.day,
            self@.is_valid(),
    {
        proof {
            use_type_invariant(self);
        }
        self.day
    }

    /// The date written as one number, for years that leave the number
    /// within an `i32`.
    pub fn sort_value(&self) -> (value: i32)
        requires
            -214748 <= self@.year <= 214748,
        ensures
            value == self@.sort_value(),
    {
        proof {
            use_type_invariant(self);
        }
        let rest = (self.month * 100 + self.day) as i32;
        if self.year >= 0 {
            self.year * 10000 + rest
        } else {
            -((-self.year) * 10000 + rest)
        }
    }

    /// Whether both are the same day.
    pub fn same_day(&self, other: &Date) -> (b: bool)
        ensures
            b == (self@ == other@),
    {
        self.year == other.year && self.month == other.month && self.day == other.day
    }

    /// Whether `self` is an earlier day than `other`.
    pub fn is_before(&self, other: &Date) -> (b: bool)
        ensures
            b == self@.precedes(other@),
    {
        self.year < other.year || (self.year == other.year && (self.month < other.month || (
        self.month == other.month && self.day < other.day)))
    }

    /// The date as `YYYY-MM-DD`.
    pub fn to_string(&self) -> (s: String)
        ensures
            s@ == self@.text(),
    {
        proof {
            use_type_invariant(self);
        }
        let mut s = String::new();
        if self.year < 0 {
            push_char(&mut s, '-');
            append_padded(&mut s, (-(self.year as i64)) as u64, 3);
        } else {
            append_padded(&mut s, self.year as u64, 4);
        }
        push_char(&mut s, '-');
        append_padded(&mut s, self.month as u64, 2);
        push_char(&mut s, '-');
        append_padded(&mut s, self.day as u64, 2);
        proof {
            assert(s@ =~= self@.text());
        }
        s
    }

    /// The date written out with the names of its day of the week and of
    /// its month.
    pub fn to_verbose_string(&self) -> (s: String)
        ensures
            s@ == verbose_date_text(self@.year, self@.month, self@.day),
    {
        proof {
            use_type_invariant(self);
        }
        format_verbose(self.year, self.month, self.day)
    }

    /// The day of the week, counted from Monday as 0.
    pub fn weekday(&self) -> (n: u32)
        ensures
            n as int == self@.weekday(),
            n < 7,
    {
        proof {
            use_type_invariant(self);
        }
        weekday_from_monday(self.year, self.month, self.day)
    }

    /// The day `days` days later, or earlier where `days` is negative;
    /// `None` where that day is out of range.
    pub fn plus_days(&self, days: i64) -> (date: Option<Date>)
        ensures
            match date {
                Some(d) => self@.plus_days(days as int) == Some(d@),
                None => self@.plus_days(days as int) is None,
            },
    {
        proof {
            use_type_invariant(self);
        }
        match add_days(self.year, self.month, self.day, days) {
            Some(ymd) => {
                let date = Date { year: ymd.0, month: ymd.1, day: ymd.2 };
                proof {
                    lemma_plus_days(self@, days as int, date@);
                }
                Some(date)
            },
            None => {
                proof {
                    assert forall|date: DateSpec| !date.is_days_after(self@, days as int) by {
                        if date.is_valid() {
                            assert(day_number(date.year, date.month, date.day) != day_number(
                                self.year as int,
                                self.month as int,
                                self.day as int,
                            ) + days);
                        }
                    }
                }
                None
            },
        }
    }

    /// The day `months` months later, or earlier where `months` is negative,
    /// held back to the end of a shorter month; `None` where that day is out
    /// of range.
    pub fn plus_months(&self, months: i64) -> (date: Option<Date>)
        ensures
            match date {
                Some(d) => self@.plus_months(months as int) == Some(d@),
                None => self@.plus_months(months as int) is None,
            },
    {
        proof {
            use_type_invariant(self);
        }
        if months >= 0 {
            if months > 0xffff_ffff {
                return None;
            }
            match add_months(self.year, self.month, self.day, months as u32) {
                Some(ymd) => {
                    assert(is_calendar_date(ymd.0 as int, ymd.1 as int, ymd.2 as int));
                    Some(Date { year: ymd.0, month: ymd.1, day: ymd.2 })
                },
                None => None,
            }
        } else {
            if months < -0xffff_ffff {
                return None;
            }
            match sub_months(self.year, self.month, self.day, (-months) as u32) {
                Some(ymd) => {
                    assert(is_calendar_date(ymd.0 as int, ymd.1 as int, ymd.2 as int));
                    Some(Date { year: ymd.0, month: ymd.1, day: ymd.2 })
                },
                None => None,
            }
        }
    }
}


/// A time of day as contracts see it.
pub ghost struct TimeSpec {
    pub hour: int,
    pub minute: int,
}

impl TimeSpec {
    pub open spec fn is_valid(self) -> bool {
        0 <= self.hour < 24 && 0 <= self.minute < 60
    }

    /// The minutes that have passed since midnight.
    pub open spec fn minutes(self) -> int {
        self.hour * 60 + self.minute
    }

    /// The time as `HH:MM`.
    pub open spec fn text(self) -> Seq<char> {
        padded(self.hour as nat, 2) + seq![':'] + padded(self.minute as nat, 2)
    }

    /// The time as `HH:MM:SS`, the seconds being zero.
    pub open spec fn text_with_seconds(self) -> Seq<char> {
        self.text() + seq![':', '0', '0']
    }
}

/// A time of day, to the minute.
#[derive(Debug, Clone, Copy, PartialEq, Eq)]
pub struct Time {
    hour: u32,
    minute: u32,
}

impl View for Time {
    type V = TimeSpec;

    closed spec fn view(&self) -> TimeSpec {
        TimeSpec { hour: self.hour as int, minute: self.minute as int }
    }
}

impl Time {
    /// Every time lies within the day.
    #[verifier::type_invariant]
    pub open spec fn valid(self) -> bool {
        self@.is_valid()
    }

    /// The time of the given hour and minute; hours from 24 on and minutes
    /// from 60 on wrap around.
    pub fn from_hm(h: u32, m: u32) -> (time: Time)
        ensures
            time@ == (TimeSpec { hour: h as int % 24, minute: m as int % 60 }),
    {
        Time { hour: h % 24, minute: m % 60 }
    }

    pub fn hour(&self) -> (hour: u32)
        ensures
            hour == self@.hour,
            self@.is_valid(),
    {
        proof {
            use_type_invariant(self);
        }
        self.hour
    }

    pub fn minute(&self) -> (minute: u32)
        ensures
            minute == self@.minute,
            self@.is_valid(),
    {
        proof {
            use_type_invariant(self);
        }
        self.minute
    }

    /// The minutes that have passed since midnight.
    pub fn minutes(&self) -> (minutes: u32)
        ensures
            minutes == self@.minutes(),
            self@.is_valid(),
            minutes < 1440,
    {
        proof {
            use_type_invariant(self);
        }
        self.hour * 60 + self.minute
    }

    /// The time as `HH:MM`.
    pub fn to_string(&self) -> (s: String)
        ensures
            s@ == self@.text(),
    {
        let mut s = String::new();
        append_padded(&mut s, self.hour as u64, 2);
        push_char(&mut s, ':');
        append_padded(&mut s, self.minute as u64, 2);
        proof {
            assert(s@ =~= self@.text());
        }
        s
    }
}

/// A point in time as contracts see it.
pub ghost struct TimestampSpec {
    pub date: DateSpec,
    pub time: TimeSpec,
}

/// A day and a time of that day: the moment against which open entries are
/// resolved.
#[derive(Debug, Clone, Copy, PartialEq, Eq)]
pub struct Timestamp {
    pub date: Date,
    pub time: Time,
}

impl View for Timestamp {
    type V = TimestampSpec;

    open spec fn view(&self) -> TimestampSpec {
        TimestampSpec { date: self.date@, time: self.time@ }
    }
}

impl Timestamp {
    /// The moment of the given day and time.
    pub fn new(date: Date, time: Time) -> (timestamp: Timestamp)
        ensures
            timestamp@ == (TimestampSpec { date: date@, time: time@ }),
    {
        Timestamp { date, time }
    }
}

} // verus!
