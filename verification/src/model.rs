use crate::calendar::{
    verbose_date_text, Date, DateSpec, Time, TimeSpec, Timestamp, TimestampSpec,
};
use crate::parser::filter::{CriteriaSpec, Filter};
use crate::parser::timesheet::{Entry, EntrySpec, LogSpec, Tokens};
use crate::parser::token::TokenSpec;
use crate::text::{append_decimal, push_char, signed_decimal};
use vstd::prelude::*;
use vstd::string::StringExecFns;

verus! {

/// The number of minutes of a day.
pub const MINUTES_PER_DAY: u32 = 1440;

/// The text of a number of minutes: the minutes alone where they make up
/// no whole hour, else the hours and the minutes left over.
pub open spec fn duration_text(minutes: int) -> Seq<char> {
    let hours = if minutes >= 0 {
        minutes / 60
    } else {
        -((-minutes) / 60)
    };
    let rest = if minutes >= 0 {
        minutes % 60
    } else {
        -((-minutes) % 60)
    };
    if hours == 0 {
        signed_decimal(rest) + seq!['m']
    } else {
        signed_decimal(hours) + seq!['h'] + signed_decimal(rest) + seq!['m']
    }
}

/// A length of time in whole minutes.
#[derive(Debug, Clone, Copy, PartialEq, Eq)]
pub struct LogDuration {
    minutes: i64,
}

impl View for LogDuration {
    type V = int;

    closed spec fn view(&self) -> int {
        self.minutes as int
    }
}

impl LogDuration {
    pub fn num_minutes(&self) -> (minutes: i64)
        ensures
            minutes == self@,
    {
        self.minutes
    }

    pub fn from_minutes(arg: i64) -> (duration: LogDuration)
        ensures
            duration@ == arg,
    {
        LogDuration { minutes: arg }
    }

    /// The duration as `{m}m`, or as `{h}h{m}m` from one hour on.
    pub fn to_string(&self) -> (s: String)
        ensures
            s@ == duration_text(self@),
    {
        let negative = self.minutes < 0;
        let magnitude: u64 = if negative {
            ((-(self.minutes + 1)) as u64) + 1
        } else {
            self.minutes as u64
        };
        let hours = magnitude / 60;
        let rest = magnitude % 60;
        let mut s = String::new();
        if hours != 0 {
            if negative {
                push_char(&mut s, '-');
            }
            append_decimal(&mut s, hours);
            push_char(&mut s, 'h');
        }
        if negative && rest != 0 {
            push_char(&mut s, '-');
        }
        append_decimal(&mut s, rest);
        push_char(&mut s, 'm');
        proof {
            assert(s@ =~= duration_text(self@));
        }
        s
    }
}

/// A resolved span of time as contracts see it.
pub ghost struct SpanSpec {
    pub start: TimeSpec,
    pub end: TimeSpec,
    pub ongoing: bool,
}

impl SpanSpec {
    pub open spec fn is_valid(self) -> bool {
        self.start.is_valid() && self.end.is_valid()
    }

    /// The minutes from start to end; an end before the start lies on the
    /// next day.
    pub open spec fn minutes(self) -> int {
        if self.end.minutes() >= self.start.minutes() {
            self.end.minutes() - self.start.minutes()
        } else {
            (MINUTES_PER_DAY - self.start.minutes()) + self.end.minutes()
        }
    }

    /// The span as `HH:MM:SS-HH:MM:SS`.
    pub open spec fn text(self) -> Seq<char> {
        self.start.text_with_seconds() + seq!['-'] + self.end.text_with_seconds()
    }
}

/// A span of time with its end: that of the line, or the one that was found
/// for it.
#[derive(Debug, Clone, Copy)]
pub struct TimeRangeView {
    pub start: Time,
    pub end: Time,
    /// Whether the span is still open, its end being the present moment.
    pub ongoing: bool,
}

impl View for TimeRangeView {
    type V = SpanSpec;

    open spec fn view(&self) -> SpanSpec {
        SpanSpec { start: self.start@, end: self.end@, ongoing: self.ongoing }
    }
}

impl TimeRangeView {
    /// The span as `HH:MM:SS-HH:MM:SS`.
    pub fn to_string(&self) -> (s: String)
        ensures
            s@ == self@.text(),
    {
        let mut s = self.start.to_string();
        s.append(":00-");
        s.append(self.end.to_string().as_str());
        s.append(":00");
        proof {
            reveal_strlit(":00-");
            reveal_strlit(":00");
            assert(s@ =~= self@.text());
        }
        s
    }

    /// The length of the span.
    pub fn duration(&self) -> (duration: LogDuration)
        ensures
            duration@ == self@.minutes(),
            self@.is_valid(),
            0 <= duration@ < 2 * MINUTES_PER_DAY,
    {
        let start = self.start.minutes();
        let end = self.end.minutes();
        if end >= start {
            return LogDuration { minutes: (end - start) as i64 };
        }
        let to_midnight = MINUTES_PER_DAY - start;
        LogDuration { minutes: to_midnight as i64 + end as i64 }
    }
}

/// A resolved line as contracts see it.
pub ghost struct LogEntrySpec {
    pub time_range: SpanSpec,
    pub description: Seq<TokenSpec>,
}

impl LogEntrySpec {
    pub open spec fn is_valid(self) -> bool {
        self.time_range.is_valid()
    }
}

/// A line of a day with its resolved span of time.
#[derive(Debug)]
pub struct LogEntry {
    time_range: TimeRangeView,
    desription: Tokens,
}

impl View for LogEntry {
    type V = LogEntrySpec;

    closed spec fn view(&self) -> LogEntrySpec {
        LogEntrySpec { time_range: self.time_range@, description: self.desription@ }
    }
}

impl Clone for LogEntry {
    fn clone(&self) -> (entry: LogEntry)
        ensures
            entry@ == self@,
    {
        proof {
            use_type_invariant(self);
        }
        LogEntry { time_range: self.time_range, desription: self.desription.clone() }
    }
}

impl LogEntry {
    /// The times of every resolved line lie within the day.
    #[verifier::type_invariant]
    pub open spec fn valid(self) -> bool {
        self@.is_valid()
    }

    pub fn new(time_range: TimeRangeView, description: Tokens) -> (entry: LogEntry)
        ensures
            entry@ == (LogEntrySpec { time_range: time_range@, description: description@ }),
    {
        proof {
            use_type_invariant(&time_range.start);
            use_type_invariant(&time_range.end);
        }
        LogEntry { time_range, desription: description }
    }

    pub fn time_range(&self) -> (time_range: &TimeRangeView)
        ensures
            time_range@ == self@.time_range,
            self@.is_valid(),
    {
        proof {
            use_type_invariant(self);
        }
        &self.time_range
    }

    pub fn description(&self) -> (description: &Tokens)
        ensures
            description@ == self@.description,
    {
        &self.desription
    }
}

/// The resolved lines of a sequence as contracts see them.
pub open spec fn log_entry_views(logs: Seq<LogEntry>) -> Seq<LogEntrySpec> {
    logs.map_values(|log: LogEntry| log@)
}

/// The date of a day, and the moment at which it was looked at, as contracts
/// see them.
pub ghost struct LogDateSpec {
    pub now: TimestampSpec,
    pub date: DateSpec,
}

/// The date of a day, and the moment at which it was looked at.
#[derive(Debug, Clone, Copy)]
pub struct LogDate {
    now: Timestamp,
    date: Date,
}

impl View for LogDate {
    type V = LogDateSpec;

    closed spec fn view(&self) -> LogDateSpec {
        LogDateSpec { now: self.now@, date: self.date@ }
    }
}

impl LogDate {
    pub fn new(now: Timestamp, date: Date) -> (log_date: LogDate)
        ensures
            log_date@ == (LogDateSpec { now: now@, date: date@ }),
    {
        LogDate { now, date }
    }

    /// Whether the day is the day of the moment at which it was looked at.
    pub fn is_today(&self) -> (b: bool)
        ensures
            b == (self@.date == self@.now.date),
    {
        self.date.same_day(&self.now.date)
    }

    pub fn date(&self) -> (date: Date)
        ensures
            date@ == self@.date,
    {
        self.date
    }

    /// The date written out with the names of its day of the week and of
    /// its month.
    pub fn to_verbose_string(&self) -> (s: String)
        ensures
            s@ == verbose_date_text(self@.date.year, self@.date.month, self@.date.day),
    {
        self.date.to_verbose_string()
    }

    pub fn now(&self) -> (now: Timestamp)
        ensures
            now@ == self@.now,
    {
        self.now
    }
}

/// The span of time of line `i` of a day, resolved against `now`: the
/// line's own end where it has one; else the start of the next line; else,
/// for the last line, the present time where the day is today, and the
/// line's own start where it is not.
pub open spec fn resolved_span(logs: Seq<LogSpec>, i: int, date: DateSpec, now: TimestampSpec) -> SpanSpec {
    let start = logs[i].time.start;
    match logs[i].time.end {
        Some(end) => SpanSpec { start, end, ongoing: false },
        None => {
            if i + 1 < logs.len() {
                SpanSpec { start, end: logs[i + 1].time.start, ongoing: false }
            } else if now.date == date {
                SpanSpec { start, end: now.time, ongoing: true }
            } else {
                SpanSpec { start, end: start, ongoing: false }
            }
        },
    }
}

/// Whether line `i` of a day is one for which nothing gives an end: the
/// last line, without an end of its own, of a day that is not today.
pub open spec fn is_fallback(logs: Seq<LogSpec>, i: int, date: DateSpec, now: TimestampSpec) -> bool {
    logs[i].time.end is None && i + 1 == logs.len() && now.date != date
}

/// Every line of a day is resolved, with the start that it had. Where no
/// end that is given or found is the same time as the start, a resolved
/// line ends at its start exactly where nothing gives an end, and such a
/// line is not ongoing.
pub proof fn lemma_resolution_total(entry: EntrySpec, now: TimestampSpec, i: int)
    requires
        0 <= i < entry.logs.len(),
        entry.logs[i].time.end matches Some(end) ==> end != entry.logs[i].time.start,
        entry.logs[i].time.end is None && i + 1 < entry.logs.len() ==> entry.logs[i
            + 1].time.start != entry.logs[i].time.start,
        entry.logs[i].time.end is None && i + 1 == entry.logs.len() && now.date == entry.date
            ==> now.time != entry.logs[i].time.start,
    ensures
        resolved_logs(entry, now).len() == entry.logs.len(),
        resolved_logs(entry, now)[i].description == entry.logs[i].description,
        resolved_logs(entry, now)[i].time_range.start == entry.logs[i].time.start,
        resolved_logs(entry, now)[i].time_range.end == resolved_logs(
            entry,
            now,
        )[i].time_range.start <==> is_fallback(entry.logs, i, entry.date, now),
        is_fallback(entry.logs, i, entry.date, now) ==> !resolved_logs(
            entry,
            now,
        )[i].time_range.ongoing,
{
}

/// The lines of a day, resolved against `now`.
pub open spec fn resolved_logs(entry: EntrySpec, now: TimestampSpec) -> Seq<LogEntrySpec> {
    Seq::new(
        entry.logs.len(),
        |i: int|
            LogEntrySpec {
                time_range: resolved_span(entry.logs, i, entry.date, now),
                description: entry.logs[i].description,
            },
    )
}

/// A resolved day as contracts see it.
pub ghost struct LogDaySpec {
    pub logs: Seq<LogEntrySpec>,
    pub date: LogDateSpec,
}

impl LogDaySpec {
    pub open spec fn is_valid(self) -> bool {
        forall|i: int| 0 <= i < self.logs.len() ==> (#[trigger] self.logs[i]).is_valid()
    }

    /// The minutes of all lines of the day together.
    pub open spec fn total_minutes(self) -> int {
        minutes_of(self.logs)
    }
}

/// The minutes of a sequence of resolved lines together.
pub open spec fn minutes_of(logs: Seq<LogEntrySpec>) -> int
    decreases logs.len(),
{
    if logs.len() == 0 {
        0
    } else {
        minutes_of(logs.drop_last()) + logs.last().time_range.minutes()
    }
}

/// The minutes of valid lines add up to no less than those of any number
/// of the first of them, which are not negative.
pub proof fn lemma_minutes_of_grow(logs: Seq<LogEntrySpec>, k: int)
    requires
        0 <= k <= logs.len(),
        forall|i: int| 0 <= i < logs.len() ==> (#[trigger] logs[i]).is_valid(),
    ensures
        0 <= minutes_of(logs.take(k)) <= minutes_of(logs),
    decreases logs.len(),
{
    if logs.len() == 0 {
        assert(logs.take(k) =~= logs);
    } else if k == logs.len() {
        assert(logs.take(k) =~= logs);
        lemma_minutes_of_grow(logs.drop_last(), k - 1);
        assert(logs.last().is_valid());
    } else {
        lemma_minutes_of_grow(logs.drop_last(), k);
        assert(logs.drop_last().take(k) =~= logs.take(k));
        assert(logs.last().is_valid());
    }
}

/// A sequence of which every element passes a test is its own filtering.
pub proof fn lemma_filter_keeps_all<A>(s: Seq<A>, pred: spec_fn(A) -> bool)
    requires
        forall|i: int| 0 <= i < s.len() ==> pred(#[trigger] s[i]),
    ensures
        s.filter(pred) == s,
    decreases s.len(),
{
    reveal(Seq::filter);
    if s.len() > 0 {
        lemma_filter_keeps_all(s.drop_last(), pred);
        assert(s.drop_last().push(s.last()) =~= s);
    }
}

/// Whether a description passes a filter: the filter or the description is
/// empty, or one of the tokens meets one of the criteria.
pub open spec fn passes(filter: Seq<CriteriaSpec>, tokens: Seq<TokenSpec>) -> bool {
    filter.len() == 0 || tokens.len() == 0 || exists|i: int, j: int|
        0 <= i < filter.len() && 0 <= j < tokens.len() && #[trigger] filter[i].satisfied_by(
            #[trigger] tokens[j],
        )
}

/// The test that a line passes a filter.
pub open spec fn passing(filter: Seq<CriteriaSpec>) -> spec_fn(LogEntrySpec) -> bool {
    |log: LogEntrySpec| passes(filter, log.description)
}

/// The lines that pass a filter, in order.
pub open spec fn filtered_logs(logs: Seq<LogEntrySpec>, filter: Seq<CriteriaSpec>) -> Seq<
    LogEntrySpec,
> {
    logs.filter(passing(filter))
}

/// Filtering by a filter without criteria leaves the lines as they are.
pub proof fn lemma_empty_filter_identity(logs: Seq<LogEntrySpec>)
    ensures
        filtered_logs(logs, Seq::empty()) == logs,
{
    lemma_filter_keeps_all(logs, passing(Seq::empty()));
}

/// Filtering a second time by the same filter changes nothing.
pub proof fn lemma_filter_idempotent(logs: Seq<LogEntrySpec>, filter: Seq<CriteriaSpec>)
    ensures
        filtered_logs(filtered_logs(logs, filter), filter) == filtered_logs(logs, filter),
{
    broadcast use Seq::lemma_filter_pred;

    lemma_filter_keeps_all(filtered_logs(logs, filter), passing(filter));
}

/// Whether the description passes the filter.
pub fn description_passes(filter: &Filter, tokens: &Tokens) -> (b: bool)
    ensures
        b == passes(filter@, tokens@),
{
    if filter.criterias.len() == 0 || tokens.len() == 0 {
        return true;
    }
    let mut i: usize = 0;
    while i < filter.criterias.len()
        invariant
            i <= filter.criterias@.len(),
            forall|a: int, b: int|
                0 <= a < i && 0 <= b < tokens@.len() ==> !(#[trigger] filter@[a].satisfied_by(
                    #[trigger] tokens@[b],
                )),
        decreases filter.criterias@.len() - i,
    {
        let mut j: usize = 0;
        while j < tokens.len()
            invariant
                i < filter.criterias@.len(),
                j <= tokens@.len(),
                forall|b: int|
                    0 <= b < j ==> !filter@[i as int].satisfied_by(#[trigger] tokens@[b]),
            decreases tokens@.len() - j,
        {
            if filter.criterias[i].is_satisfied_with(tokens.at(j)) {
                assert(filter@[i as int].satisfied_by(tokens@[j as int]));
                return true;
            }
            j += 1;
        }
        i += 1;
    }
    false
}

/// A day of the time sheet with every line resolved.
#[derive(Debug)]
pub struct LogDay {
    logs: Vec<LogEntry>,
    date: LogDate,
}

impl View for LogDay {
    type V = LogDaySpec;

    closed spec fn view(&self) -> LogDaySpec {
        LogDaySpec { logs: log_entry_views(self.logs@), date: self.date@ }
    }
}

impl LogDay {
    /// The times of every line of a resolved day lie within the day.
    #[verifier::type_invariant]
    pub open spec fn valid(self) -> bool {
        self@.is_valid()
    }

    /// Resolves the lines of a day against the moment `current_date`.
    pub fn from_entry(current_date: Timestamp, entry: Entry) -> (day: LogDay)
        ensures
            day@ == (LogDaySpec {
                logs: resolved_logs(entry@, current_date@),
                date: LogDateSpec { now: current_date@, date: entry@.date },
            }),
    {
        let mut logs: Vec<LogEntry> = Vec::new();
        let today = current_date.date.same_day(&entry.date);
        let count = entry.logs.len();
        let mut i: usize = 0;
        while i < count
            invariant
                count == entry.logs@.len(),
                i <= count,
                today == (current_date@.date == entry@.date),
                logs@.len() == i,
                forall|k: int|
                    0 <= k < i ==> (#[trigger] logs@[k])@ == resolved_logs(
                        entry@,
                        current_date@,
                    )[k],
                forall|k: int| 0 <= k < i ==> (#[trigger] logs@[k])@.is_valid(),
            decreases count - i,
        {
            let log = &entry.logs[i];
            let start = log.time.start;
            let time_range = match log.time.end {
                Some(end) => TimeRangeView { start, end, ongoing: false },
                None => {
                    if i + 1 < count {
                        TimeRangeView { start, end: entry.logs[i + 1].time.start, ongoing: false }
                    } else if today {
                        TimeRangeView { start, end: current_date.time, ongoing: true }
                    } else {
                        TimeRangeView { start, end: start, ongoing: false }
                    }
                },
            };
            let resolved = LogEntry::new(time_range, log.description.clone());
            proof {
                use_type_invariant(&resolved);
                assert(entry@.logs[i as int] == entry.logs@[i as int]@);
                if i + 1 < count {
                    assert(entry@.logs[i + 1] == entry.logs@[i + 1]@);
                }
            }
            logs.push(resolved);
            i += 1;
        }
        proof {
            assert(log_entry_views(logs@) =~= resolved_logs(entry@, current_date@));
        }
        LogDay { logs, date: LogDate::new(current_date, entry.date) }
    }

    /// Resolves the lines of a day against the moment `current_date`.
    pub fn new(current_date: Timestamp, entry: Entry) -> (day: LogDay)
        ensures
            day@ == (LogDaySpec {
                logs: resolved_logs(entry@, current_date@),
                date: LogDateSpec { now: current_date@, date: entry@.date },
            }),
    {
        LogDay::from_entry(current_date, entry)
    }

    /// The minutes of all lines of the day together; `None` where they are
    /// more than a `u64` can hold.
    pub fn total_minutes(&self) -> (total: Option<u64>)
        ensures
            self@.is_valid(),
            match total {
                Some(minutes) => minutes == self@.total_minutes(),
                None => self@.total_minutes() > u64::MAX,
            },
    {
        proof {
            use_type_invariant(self);
        }
        let mut total: u64 = 0;
        let mut i: usize = 0;
        proof {
            assert(self@.logs.take(0) =~= Seq::<LogEntrySpec>::empty());
        }
        while i < self.logs.len()
            invariant
                self@.is_valid(),
                self@.logs == log_entry_views(self.logs@),
                i <= self.logs@.len(),
                total == minutes_of(self@.logs.take(i as int)),
            decreases self.logs@.len() - i,
        {
            let minutes = self.logs[i].time_range().duration().num_minutes() as u64;
            proof {
                let next = self@.logs.take(i + 1);
                assert(next.drop_last() =~= self@.logs.take(i as int));
                assert(next.last() == self.logs@[i as int]@);
                lemma_minutes_of_grow(self@.logs, i + 1);
            }
            if minutes > u64::MAX - total {
                return None;
            }
            total = total + minutes;
            i += 1;
        }
        proof {
            assert(self@.logs.take(i as int) =~= self@.logs);
        }
        Some(total)
    }

    /// The minutes of all lines of the day together; `None` where they are
    /// more than a duration can hold.
    pub fn duration_total(&self) -> (total: Option<LogDuration>)
        ensures
            self@.is_valid(),
            match total {
                Some(duration) => duration@ == self@.total_minutes(),
                None => self@.total_minutes() > i64::MAX,
            },
    {
        match self.total_minutes() {
            Some(minutes) => {
                if minutes > i64::MAX as u64 {
                    None
                } else {
                    Some(LogDuration { minutes: minutes as i64 })
                }
            },
            None => None,
        }
    }

    /// The lines of the day, in order.
    pub fn iter(&self) -> (logs: &Vec<LogEntry>)
        ensures
            log_entry_views(logs@) == self@.logs,
            self@.is_valid(),
    {
        self.logs()
    }

    pub fn logs(&self) -> (logs: &Vec<LogEntry>)
        ensures
            log_entry_views(logs@) == self@.logs,
            self@.is_valid(),
    {
        proof {
            use_type_invariant(self);
        }
        &self.logs
    }

    pub fn date(&self) -> (date: &LogDate)
        ensures
            date@ == self@.date,
    {
        &self.date
    }

    /// The day with the lines that pass the filter, in order.
    pub fn with_filter(&self, filter: &Filter) -> (day: LogDay)
        ensures
            day@ == (LogDaySpec { logs: filtered_logs(self@.logs, filter@), date: self@.date }),
    {
        proof {
            use_type_invariant(self);
        }
        let mut logs: Vec<LogEntry> = Vec::new();
        let mut i: usize = 0;
        proof {
            assert(self@.logs.take(0) =~= Seq::<LogEntrySpec>::empty());
            assert(log_entry_views(logs@) =~= filtered_logs(self@.logs.take(0), filter@));
        }
        while i < self.logs.len()
            invariant
                self@.is_valid(),
                self@.logs == log_entry_views(self.logs@),
                i <= self.logs@.len(),
                log_entry_views(logs@) == filtered_logs(self@.logs.take(i as int), filter@),
                forall|k: int| 0 <= k < logs@.len() ==> (#[trigger] logs@[k])@.is_valid(),
            decreases self.logs@.len() - i,
        {
            let ghost before = logs@;
            proof {
                assert(self@.logs.take(i + 1) =~= self@.logs.take(i as int).push(
                    self@.logs[i as int],
                ));
                Seq::lemma_filter_push(
                    self@.logs.take(i as int),
                    self@.logs[i as int],
                    passing(filter@),
                );
            }
            if description_passes(filter, self.logs[i].description()) {
                let log = self.logs[i].clone();
                logs.push(log);
                proof {
                    assert(log_entry_views(logs@) =~= log_entry_views(before).push(
                        self@.logs[i as int],
                    ));
                }
            }
            i += 1;
        }
        proof {
            assert(self@.logs.take(i as int) =~= self@.logs);
        }
        LogDay { logs, date: self.date }
    }
}

impl Clone for LogDay {
    fn clone(&self) -> (day: LogDay)
        ensures
            day@ == self@,
    {
        proof {
            use_type_invariant(self);
        }
        let mut logs: Vec<LogEntry> = Vec::new();
        let mut i: usize = 0;
        while i < self.logs.len()
            invariant
                self@.is_valid(),
                self@.logs == log_entry_views(self.logs@),
                i <= self.logs@.len(),
                logs@.len() == i,
                forall|k: int| 0 <= k < i ==> (#[trigger] logs@[k])@ == self.logs@[k]@,
            decreases self.logs@.len() - i,
        {
            logs.push(self.logs[i].clone());
            i += 1;
        }
        proof {
            assert(log_entry_views(logs@) =~= log_entry_views(self.logs@));
        }
        LogDay { logs, date: self.date }
    }
}


/// The resolved days of a sequence as contracts see them.
pub open spec fn log_day_views(days: Seq<LogDay>) -> Seq<LogDaySpec> {
    days.map_values(|day: LogDay| day@)
}

/// Every day of the sequence with its lines resolved against `now`.
pub open spec fn resolved_days(entries: Seq<EntrySpec>, now: TimestampSpec) -> Seq<LogDaySpec> {
    Seq::new(
        entries.len(),
        |i: int|
            LogDaySpec {
                logs: resolved_logs(entries[i], now),
                date: LogDateSpec { now, date: entries[i].date },
            },
    )
}

/// Every day of the sequence with the lines that pass the filter.
pub open spec fn filtered_days(days: Seq<LogDaySpec>, filter: Seq<CriteriaSpec>) -> Seq<
    LogDaySpec,
> {
    Seq::new(
        days.len(),
        |i: int| LogDaySpec { logs: filtered_logs(days[i].logs, filter), date: days[i].date },
    )
}

/// The test that a day lies in the window from `start` up to, and not
/// including, `end`.
pub open spec fn in_window(start: DateSpec, end: DateSpec) -> spec_fn(LogDaySpec) -> bool {
    |day: LogDaySpec| start.not_after(day.date.date) && day.date.date.precedes(end)
}

/// The minutes of the days of a sequence that fall on a day of the week,
/// counted from Monday as 0.
pub open spec fn weekday_minutes(days: Seq<LogDaySpec>, weekday: int) -> int
    decreases days.len(),
{
    if days.len() == 0 {
        0
    } else {
        weekday_minutes(days.drop_last(), weekday) + if days.last().date.date.weekday()
            == weekday {
            days.last().total_minutes()
        } else {
            0
        }
    }
}

/// Whether every day of the sequence is valid.
pub open spec fn all_days_valid(days: Seq<LogDaySpec>) -> bool {
    forall|i: int| 0 <= i < days.len() ==> (#[trigger] days[i]).is_valid()
}

/// The minutes of a day of the week over valid days are no fewer than over
/// any number of the first of them, and not negative.
pub proof fn lemma_weekday_minutes_grow(days: Seq<LogDaySpec>, weekday: int, k: int)
    requires
        0 <= k <= days.len(),
        all_days_valid(days),
    ensures
        0 <= weekday_minutes(days.take(k), weekday) <= weekday_minutes(days, weekday),
    decreases days.len(),
{
    if days.len() == 0 {
        assert(days.take(k) =~= days);
    } else {
        assert(days.last().is_valid());
        lemma_minutes_of_grow(days.last().logs, 0);
        if k == days.len() {
            assert(days.take(k) =~= days);
            lemma_weekday_minutes_grow(days.drop_last(), weekday, k - 1);
        } else {
            lemma_weekday_minutes_grow(days.drop_last(), weekday, k);
            assert(days.drop_last().take(k) =~= days.take(k));
        }
    }
}

/// The short name of a day of the week, counted from Monday as 0.
pub open spec fn weekday_label(weekday: int) -> Seq<char> {
    if weekday == 0 {
        "Mon"@
    } else if weekday == 1 {
        "Tue"@
    } else if weekday == 2 {
        "Wed"@
    } else if weekday == 3 {
        "Thu"@
    } else if weekday == 4 {
        "Fri"@
    } else if weekday == 5 {
        "Sat"@
    } else {
        "Sun"@
    }
}

fn weekday_name(weekday: usize) -> (name: &'static str)
    ensures
        name@ == weekday_label(weekday as int),
{
    if weekday == 0 {
        "Mon"
    } else if weekday == 1 {
        "Tue"
    } else if weekday == 2 {
        "Wed"
    } else if weekday == 3 {
        "Thu"
    } else if weekday == 4 {
        "Fri"
    } else if weekday == 5 {
        "Sat"
    } else {
        "Sun"
    }
}

/// The days of a time sheet, every line resolved.
#[derive(Debug)]
pub struct LogDays {
    entries: Vec<LogDay>,
}

impl View for LogDays {
    type V = Seq<LogDaySpec>;

    closed spec fn view(&self) -> Seq<LogDaySpec> {
        log_day_views(self.entries@)
    }
}

impl Clone for LogDays {
    fn clone(&self) -> (days: LogDays)
        ensures
            days@ == self@,
    {
        let mut entries: Vec<LogDay> = Vec::new();
        let mut i: usize = 0;
        while i < self.entries.len()
            invariant
                i <= self.entries@.len(),
                entries@.len() == i,
                forall|k: int| 0 <= k < i ==> (#[trigger] entries@[k])@ == self.entries@[k]@,
                forall|k: int| 0 <= k < i ==> (#[trigger] entries@[k])@.is_valid(),
            decreases self.entries@.len() - i,
        {
            let day = self.entries[i].clone();
            proof {
                use_type_invariant(&day);
            }
            entries.push(day);
            i += 1;
        }
        proof {
            assert(log_day_views(entries@) =~= log_day_views(self.entries@));
        }
        LogDays { entries }
    }
}

impl LogDays {
    /// The times of every line of every day lie within the day.
    #[verifier::type_invariant]
    pub open spec fn valid(self) -> bool {
        all_days_valid(self@)
    }

    /// Resolves every day of a time sheet against the moment `now`.
    pub fn new(now: Timestamp, entries: Vec<Entry>) -> (days: LogDays)
        ensures
            days@ == resolved_days(crate::parser::timesheet::entry_views(entries@), now@),
    {
        let mut days: Vec<LogDay> = Vec::new();
        let mut i: usize = 0;
        while i < entries.len()
            invariant
                i <= entries@.len(),
                days@.len() == i,
                forall|k: int|
                    0 <= k < i ==> (#[trigger] days@[k])@ == resolved_days(
                        crate::parser::timesheet::entry_views(entries@),
                        now@,
                    )[k],
                forall|k: int| 0 <= k < i ==> (#[trigger] days@[k])@.is_valid(),
            decreases entries@.len() - i,
        {
            let day = LogDay::from_entry(now, entries[i].clone());
            proof {
                use_type_invariant(&day);
            }
            days.push(day);
            i += 1;
        }
        proof {
            assert(log_day_views(days@) =~= resolved_days(
                crate::parser::timesheet::entry_views(entries@),
                now@,
            ));
        }
        LogDays { entries: days }
    }

    /// Every day with the lines that pass the filter.
    pub fn filter(&self, filter: &Filter) -> (days: LogDays)
        ensures
            days@ == filtered_days(self@, filter@),
    {
        let mut days: Vec<LogDay> = Vec::new();
        let mut i: usize = 0;
        while i < self.entries.len()
            invariant
                i <= self.entries@.len(),
                days@.len() == i,
                forall|k: int|
                    0 <= k < i ==> (#[trigger] days@[k])@ == filtered_days(self@, filter@)[k],
                forall|k: int| 0 <= k < i ==> (#[trigger] days@[k])@.is_valid(),
            decreases self.entries@.len() - i,
        {
            let day = self.entries[i].with_filter(filter);
            proof {
                use_type_invariant(&day);
            }
            days.push(day);
            i += 1;
        }
        proof {
            assert(log_day_views(days@) =~= filtered_days(self@, filter@));
        }
        LogDays { entries: days }
    }

    pub fn at(&self, index: usize) -> (day: &LogDay)
        requires
            index < self@.len(),
        ensures
            day@ == self@[index as int],
    {
        &self.entries[index]
    }

    pub fn len(&self) -> (len: usize)
        ensures
            len == self@.len(),
            all_days_valid(self@),
    {
        proof {
            use_type_invariant(self);
        }
        self.entries.len()
    }

    /// The days from `date_start` up to, and not including, `date_end`.
    pub fn until(&self, date_start: Date, date_end: Date) -> (days: LogDays)
        ensures
            days@ == self@.filter(in_window(date_start@, date_end@)),
    {
        let mut days: Vec<LogDay> = Vec::new();
        let mut i: usize = 0;
        let ghost window = in_window(date_start@, date_end@);
        proof {
            assert(self@.take(0) =~= Seq::<LogDaySpec>::empty());
            assert(log_day_views(days@) =~= self@.take(0).filter(window));
        }
        while i < self.entries.len()
            invariant
                i <= self.entries@.len(),
                window == in_window(date_start@, date_end@),
                log_day_views(days@) == self@.take(i as int).filter(window),
                forall|k: int| 0 <= k < days@.len() ==> (#[trigger] days@[k])@.is_valid(),
            decreases self.entries@.len() - i,
        {
            let ghost before = days@;
            proof {
                assert(self@.take(i + 1) =~= self@.take(i as int).push(self@[i as int]));
                Seq::lemma_filter_push(self@.take(i as int), self@[i as int], window);
            }
            let date = self.entries[i].date().date();
            if !date.is_before(&date_start) && date.is_before(&date_end) {
                proof {
                    let s = date_start@;
                    let d = date@;
                    assert(s.not_after(d));
                }
                let day = self.entries[i].clone();
                proof {
                    use_type_invariant(&day);
                }
                days.push(day);
                proof {
                    assert(log_day_views(days@) =~= log_day_views(before).push(self@[i as int]));
                }
            }
            i += 1;
        }
        proof {
            assert(self@.take(i as int) =~= self@);
        }
        LogDays { entries: days }
    }

    /// The minutes of each day of the week, from Monday to Sunday; `None`
    /// where those of one day of the week are more than a `u64` can hold.
    pub fn minutes_by_weekday(&self) -> (totals: Option<Vec<(&'static str, u64)>>)
        ensures
            match totals {
                Some(totals) => {
                    &&& totals@.len() == 7
                    &&& forall|k: int|
                        0 <= k < 7 ==> (#[trigger] totals@[k]).0@ == weekday_label(k)
                            && totals@[k].1 == weekday_minutes(self@, k)
                },
                None => exists|k: int| 0 <= k < 7 && weekday_minutes(self@, k) > u64::MAX,
            },
    {
        proof {
            use_type_invariant(self);
        }
        let mut sums: Vec<u64> = Vec::new();
        while sums.len() < 7
            invariant
                sums@.len() <= 7,
                forall|k: int| 0 <= k < sums@.len() ==> sums@[k] == 0,
            decreases 7 - sums@.len(),
        {
            sums.push(0);
        }
        let mut i: usize = 0;
        proof {
            assert(self@.take(0) =~= Seq::<LogDaySpec>::empty());
        }
        while i < self.entries.len()
            invariant
                all_days_valid(self@),
                self@ == log_day_views(self.entries@),
                i <= self.entries@.len(),
                sums@.len() == 7,
                forall|k: int|
                    0 <= k < 7 ==> #[trigger] sums@[k] == weekday_minutes(self@.take(i as int), k),
            decreases self.entries@.len() - i,
        {
            let day = &self.entries[i];
            let weekday = day.date().date().weekday() as usize;
            let ghost next = self@.take(i + 1);
            proof {
                assert(next.drop_last() =~= self@.take(i as int));
                assert(next.last() == day@);
                lemma_weekday_minutes_grow(self@, weekday as int, i + 1);
                assert(self@[i as int].is_valid());
                lemma_minutes_of_grow(day@.logs, 0);
            }
            let minutes = match day.total_minutes() {
                Some(minutes) => minutes,
                None => {
                    proof {
                        lemma_weekday_minutes_grow(self@, weekday as int, i as int);
                        assert(weekday_minutes(next, weekday as int) > u64::MAX);
                        assert(weekday_minutes(self@, weekday as int) > u64::MAX);
                    }
                    return None;
                },
            };
            let sum = sums[weekday];
            if minutes > u64::MAX - sum {
                proof {
                    assert(weekday_minutes(next, weekday as int) > u64::MAX);
                    assert(weekday_minutes(self@, weekday as int) > u64::MAX);
                }
                return None;
            }
            sums.set(weekday, sum + minutes);
            i += 1;
        }
        proof {
            assert(self@.take(i as int) =~= self@);
        }
        let mut totals: Vec<(&'static str, u64)> = Vec::new();
        let mut k: usize = 0;
        while k < 7
            invariant
                k <= 7,
                sums@.len() == 7,
                totals@.len() == k,
                forall|j: int|
                    0 <= j < k ==> (#[trigger] totals@[j]).0@ == weekday_label(j) && totals@[j].1
                        == sums@[j],
            decreases 7 - k,
        {
            totals.push((weekday_name(k), sums[k]));
            k += 1;
        }
        Some(totals)
    }
}

} // verus!
