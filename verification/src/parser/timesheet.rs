use crate::calendar::{is_calendar_date, Date, DateSpec, Time, TimeSpec};
use crate::config::Config;
use crate::parser::error::ParseError;
use crate::parser::token::{lemma_token_at, token, token_at, Token, TokenKind, TokenSpec};
use crate::text::{
    chars_of, decimal_value, lemma_decimal_value_grows, lemma_run_end, push_char, run_end,
    skip_run, value_of_digit, CharClass,
};
use vstd::prelude::*;
use vstd::string::StringExecFns;

verus! {

/// A span of time as contracts see it.
pub ghost struct TimeRangeSpec {
    pub start: TimeSpec,
    pub end: Option<TimeSpec>,
}

impl TimeRangeSpec {
    /// The span as `HH:MM`, or as `HH:MM-HH:MM` where it has an end.
    pub open spec fn text(self) -> Seq<char> {
        match self.end {
            Some(end) => self.start.text() + seq!['-'] + end.text(),
            None => self.start.text(),
        }
    }
}

/// The span of time of a line: its start, and its end where the line gives
/// one.
#[derive(Debug, Clone, Copy)]
pub struct TimeRange {
    pub start: Time,
    pub end: Option<Time>,
}

impl View for TimeRange {
    type V = TimeRangeSpec;

    open spec fn view(&self) -> TimeRangeSpec {
        TimeRangeSpec {
            start: self.start@,
            end: match self.end {
                Some(end) => Some(end@),
                None => None,
            },
        }
    }
}

impl TimeRange {
    pub fn from_start_end(start: Time, end: Time) -> (range: TimeRange)
        ensures
            range@ == (TimeRangeSpec { start: start@, end: Some(end@) }),
    {
        TimeRange { start, end: Some(end) }
    }

    pub fn from_start(start: Time) -> (range: TimeRange)
        ensures
            range@ == (TimeRangeSpec { start: start@, end: None }),
    {
        TimeRange { start, end: None }
    }

    /// The span as `HH:MM`, or as `HH:MM-HH:MM` where it has an end.
    pub fn to_string(&self) -> (s: String)
        ensures
            s@ == self@.text(),
    {
        match self.end {
            None => self.start.to_string(),
            Some(end) => {
                let mut s = self.start.to_string();
                push_char(&mut s, '-');
                s.append(end.to_string().as_str());
                s
            },
        }
    }
}

/// The tokens of a sequence as contracts see them.
pub open spec fn token_views(tokens: Seq<Token>) -> Seq<TokenSpec> {
    tokens.map_values(|token: Token| token@)
}

/// The text that a sequence of tokens stood for in the source: each token's
/// text and the whitespace after it, in order.
pub open spec fn tokens_source(tokens: Seq<TokenSpec>) -> Seq<char>
    decreases tokens.len(),
{
    if tokens.len() == 0 {
        Seq::empty()
    } else {
        tokens_source(tokens.drop_last()) + tokens.last().source()
    }
}

/// The tokens behind a sequence of references as contracts see them.
pub open spec fn token_ref_views(tokens: Seq<&Token>) -> Seq<TokenSpec> {
    tokens.map_values(|token: &Token| token@)
}

/// The test that a token is of a kind.
pub open spec fn is_of_kind(kind: TokenKind) -> spec_fn(TokenSpec) -> bool {
    |token: TokenSpec| token.kind == kind
}

/// The tokens of a kind, in order.
pub open spec fn tokens_of_kind(tokens: Seq<TokenSpec>, kind: TokenKind) -> Seq<TokenSpec> {
    tokens.filter(is_of_kind(kind))
}

/// A copy of the tokens.
pub fn clone_tokens(tokens: &Vec<Token>) -> (copy: Vec<Token>)
    ensures
        token_views(copy@) == token_views(tokens@),
{
    let mut copy: Vec<Token> = Vec::new();
    let mut i: usize = 0;
    while i < tokens.len()
        invariant
            i <= tokens@.len(),
            copy@.len() == i,
            forall|k: int| 0 <= k < i ==> copy@[k]@ == tokens@[k]@,
        decreases tokens@.len() - i,
    {
        copy.push(tokens[i].clone());
        i += 1;
    }
    proof {
        assert(token_views(copy@) =~= token_views(tokens@));
    }
    copy
}

/// The description of a line: its tokens, in order.
#[derive(Debug)]
pub struct Tokens(pub Vec<Token>);

impl View for Tokens {
    type V = Seq<TokenSpec>;

    open spec fn view(&self) -> Seq<TokenSpec> {
        token_views(self.0@)
    }
}

impl Clone for Tokens {
    fn clone(&self) -> (tokens: Tokens)
        ensures
            tokens@ == self@,
    {
        Tokens(clone_tokens(&self.0))
    }
}

impl Tokens {
    /// A description of one prose token.
    pub fn from_prose(prose: String) -> (tokens: Tokens)
        ensures
            tokens@ == seq![
                (TokenSpec { kind: TokenKind::Prose, text: prose@, whitespace: Seq::empty() }),
            ],
    {
        let mut tokens: Vec<Token> = Vec::new();
        tokens.push(Token::prose(prose));
        proof {
            assert(token_views(tokens@) =~= seq![tokens@[0]@]);
        }
        Tokens(tokens)
    }

    pub fn to_vec(&self) -> (tokens: &Vec<Token>)
        ensures
            token_views(tokens@) == self@,
    {
        &self.0
    }

    pub fn len(&self) -> (len: usize)
        ensures
            len == self@.len(),
    {
        self.0.len()
    }

    /// The first token of a description that is not empty.
    pub fn first(&self) -> (token: &Token)
        requires
            self@.len() > 0,
        ensures
            token@ == self@[0],
    {
        &self.0[0]
    }

    pub fn at(&self, index: usize) -> (token: &Token)
        requires
            index < self@.len(),
        ensures
            token@ == self@[index as int],
    {
        &self.0[index]
    }

    /// The description as it stood in the source.
    pub fn to_string(&self) -> (s: String)
        ensures
            s@ == tokens_source(self@),
    {
        let mut s = String::new();
        let mut i: usize = 0;
        while i < self.0.len()
            invariant
                i <= self.0@.len(),
                s@ == tokens_source(self@.take(i as int)),
            decreases self.0@.len() - i,
        {
            s.append(self.0[i].text.as_str());
            s.append(self.0[i].whitespace.as_str());
            proof {
                let next = self@.take(i + 1);
                assert(next.drop_last() =~= self@.take(i as int));
                assert(next.last() == self@[i as int]);
                assert(s@ =~= tokens_source(next));
            }
            i += 1;
        }
        proof {
            assert(self@.take(i as int) =~= self@);
        }
        s
    }

    pub fn new(tokens: Vec<Token>) -> (description: Tokens)
        ensures
            description@ == token_views(tokens@),
    {
        Tokens(tokens)
    }

    /// The tags of the description, in order.
    pub fn tags(&self) -> (tags: Vec<&Token>)
        ensures
            token_ref_views(tags@) == tokens_of_kind(self@, TokenKind::Tag),
    {
        self.by_kind(TokenKind::Tag)
    }

    /// The tokens of a kind, in order.
    pub fn by_kind(&self, kind: TokenKind) -> (found: Vec<&Token>)
        ensures
            token_ref_views(found@) == tokens_of_kind(self@, kind),
    {
        let mut found: Vec<&Token> = Vec::new();
        let mut i: usize = 0;
        proof {
            assert(self@.take(0) =~= Seq::<TokenSpec>::empty());
            assert(token_ref_views(found@) =~= tokens_of_kind(self@.take(0), kind));
        }
        while i < self.0.len()
            invariant
                i <= self.0@.len(),
                token_ref_views(found@) == tokens_of_kind(self@.take(i as int), kind),
            decreases self.0@.len() - i,
        {
            let ghost before = found@;
            proof {
                assert(self@.take(i + 1) =~= self@.take(i as int).push(self@[i as int]));
                Seq::lemma_filter_push(self@.take(i as int), self@[i as int], is_of_kind(kind));
            }
            if self.0[i].kind == kind {
                found.push(&self.0[i]);
                proof {
                    assert(token_ref_views(found@) =~= token_ref_views(before).push(
                        self@[i as int],
                    ));
                }
            }
            i += 1;
        }
        proof {
            assert(self@.take(i as int) =~= self@);
        }
        found
    }
}

/// A line as contracts see it.
pub ghost struct LogSpec {
    pub time: TimeRangeSpec,
    pub description: Seq<TokenSpec>,
}

/// A line of the time sheet: when, and what was done.
#[derive(Debug)]
pub struct Log {
    pub time: TimeRange,
    pub description: Tokens,
}

impl View for Log {
    type V = LogSpec;

    open spec fn view(&self) -> LogSpec {
        LogSpec { time: self.time@, description: self.description@ }
    }
}

impl Clone for Log {
    fn clone(&self) -> (log: Log)
        ensures
            log@ == self@,
    {
        Log {
            time: TimeRange { start: self.time.start, end: self.time.end },
            description: self.description.clone(),
        }
    }
}

/// The lines of a sequence as contracts see them.
pub open spec fn log_views(logs: Seq<Log>) -> Seq<LogSpec> {
    logs.map_values(|log: Log| log@)
}

/// A day of the time sheet as contracts see it.
pub ghost struct EntrySpec {
    pub date: DateSpec,
    pub logs: Seq<LogSpec>,
}

/// A day of the time sheet: its date and its lines, in the order of the
/// source.
#[derive(Debug)]
pub struct Entry {
    pub date: Date,
    pub logs: Vec<Log>,
}

impl View for Entry {
    type V = EntrySpec;

    open spec fn view(&self) -> EntrySpec {
        EntrySpec { date: self.date@, logs: log_views(self.logs@) }
    }
}

impl Clone for Entry {
    fn clone(&self) -> (entry: Entry)
        ensures
            entry@ == self@,
    {
        let mut logs: Vec<Log> = Vec::new();
        let mut i: usize = 0;
        while i < self.logs.len()
            invariant
                i <= self.logs@.len(),
                logs@.len() == i,
                forall|k: int| 0 <= k < i ==> logs@[k]@ == self.logs@[k]@,
            decreases self.logs@.len() - i,
        {
            logs.push(self.logs[i].clone());
            i += 1;
        }
        proof {
            assert(log_views(logs@) =~= log_views(self.logs@));
        }
        Entry { date: self.date, logs }
    }
}

/// The day that stands in for an empty time sheet.
pub open spec fn placeholder_entry() -> EntrySpec {
    EntrySpec {
        date: DateSpec { year: 2015, month: 1, day: 1 },
        logs: seq![
            LogSpec {
                time: TimeRangeSpec {
                    start: TimeSpec { hour: 7, minute: 28 },
                    end: Some(TimeSpec { hour: 8, minute: 28 }),
                },
                description: seq![
                    TokenSpec {
                        kind: TokenKind::Prose,
                        text: "Marty! this plain text time sheet is empty Marty!"@,
                        whitespace: Seq::empty(),
                    },
                ],
            },
        ],
    }
}

impl Entry {
    /// The date of the day.
    pub fn date_object(&self) -> (date: Date)
        ensures
            date@ == self@.date,
    {
        self.date
    }

    /// The day that stands in for an empty time sheet.
    pub fn placeholder() -> (entry: Entry)
        ensures
            entry@ == placeholder_entry(),
    {
        let description = Tokens::from_prose(
            String::from_str("Marty! this plain text time sheet is empty Marty!"),
        );
        let mut logs: Vec<Log> = Vec::new();
        logs.push(
            Log {
                time: TimeRange::from_start_end(Time::from_hm(7, 28), Time::from_hm(8, 28)),
                description,
            },
        );
        let entry = Entry { date: Date::from_ymd(2015, 1, 1), logs };
        proof {
            assert(entry@.logs =~= placeholder_entry().logs);
        }
        entry
    }
}

/// The days of a sequence as contracts see them.
pub open spec fn entry_views(entries: Seq<Entry>) -> Seq<EntrySpec> {
    entries.map_values(|entry: Entry| entry@)
}

/// A time sheet: its days.
#[derive(Debug)]
pub struct Entries {
    pub entries: Vec<Entry>,
}

impl View for Entries {
    type V = Seq<EntrySpec>;

    open spec fn view(&self) -> Seq<EntrySpec> {
        entry_views(self.entries@)
    }
}


/// Whether the character `c` stands at `pos`.
pub open spec fn char_at(s: Seq<char>, pos: int, c: char) -> bool {
    0 <= pos < s.len() && s[pos] == c
}

/// The number that stands at `pos`: a run of digits whose value an `i32`
/// can hold. With the number comes the position after it.
pub open spec fn number_at(s: Seq<char>, pos: int) -> Option<(int, int)> {
    let end = run_end(s, pos, CharClass::Digit);
    if 0 <= pos < end && decimal_value(s.subrange(pos, end)) <= i32::MAX {
        Some((decimal_value(s.subrange(pos, end)) as int, end))
    } else {
        None
    }
}

/// The date that stands at `pos`: three numbers with a `-` between each
/// two, which name a day of the calendar.
pub open spec fn date_at(s: Seq<char>, pos: int) -> Result<(DateSpec, int), ParseError> {
    let unmatched = Err(ParseError::Unmatched { position: pos as usize });
    match number_at(s, pos) {
        Some(year) => match number_at(s, year.1 + 1) {
            Some(month) => match number_at(s, month.1 + 1) {
                Some(day) => {
                    if !char_at(s, year.1, '-') || !char_at(s, month.1, '-') {
                        unmatched
                    } else if is_calendar_date(year.0, month.0, day.0) {
                        Ok((DateSpec { year: year.0, month: month.0, day: day.0 }, day.1))
                    } else {
                        Err(ParseError::InvalidDate { position: pos as usize })
                    }
                },
                None => unmatched,
            },
            None => unmatched,
        },
        None => unmatched,
    }
}

/// The time that stands at `pos`: two numbers with a `:` between them;
/// hours from 24 on and minutes from 60 on wrap around.
pub open spec fn time_at(s: Seq<char>, pos: int) -> Option<(TimeSpec, int)> {
    match number_at(s, pos) {
        Some(hour) => match number_at(s, hour.1 + 1) {
            Some(minute) => {
                if char_at(s, hour.1, ':') {
                    Some((TimeSpec { hour: hour.0 % 24, minute: minute.0 % 60 }, minute.1))
                } else {
                    None
                }
            },
            None => None,
        },
        None => None,
    }
}

/// The span of time that stands at `pos`: a time, and after a `-` a second
/// time where one stands there.
pub open spec fn time_range_at(s: Seq<char>, pos: int) -> Option<(TimeRangeSpec, int)> {
    match time_at(s, pos) {
        Some(start) => match time_at(s, start.1 + 1) {
            Some(end) => {
                if char_at(s, start.1, '-') {
                    Some((TimeRangeSpec { start: start.0, end: Some(end.0) }, end.1))
                } else {
                    Some((TimeRangeSpec { start: start.0, end: None }, start.1))
                }
            },
            None => Some((TimeRangeSpec { start: start.0, end: None }, start.1)),
        },
        None => None,
    }
}

/// The tokens that stand at `pos`, one after the other, up to the first
/// position at which no token stands, which comes with them.
pub open spec fn tokens_at(s: Seq<char>, pos: int, prefixes: Seq<Seq<char>>) -> (Seq<TokenSpec>, int)
    decreases s.len() - pos,
{
    match token_at(s, pos, prefixes) {
        Some(found) => {
            if pos < found.1 <= s.len() {
                let rest = tokens_at(s, found.1, prefixes);
                (seq![found.0] + rest.0, rest.1)
            } else {
                (Seq::empty(), pos)
            }
        },
        None => (Seq::empty(), pos),
    }
}

/// The line that stands at `pos`: a span of time, spaces and tabs, and the
/// tokens of the description.
pub open spec fn log_at(s: Seq<char>, pos: int, prefixes: Seq<Seq<char>>) -> Option<(LogSpec, int)> {
    match time_range_at(s, pos) {
        Some(time) => {
            let description = tokens_at(s, run_end(s, time.1, CharClass::Space), prefixes);
            Some((LogSpec { time: time.0, description: description.0 }, description.1))
        },
        None => None,
    }
}

/// The position after the end of line that stands at `pos`; `pos` itself
/// where none stands there.
pub open spec fn after_line_end(s: Seq<char>, pos: int) -> int {
    if char_at(s, pos, '\n') {
        pos + 1
    } else if char_at(s, pos, '\r') && char_at(s, pos + 1, '\n') {
        pos + 2
    } else {
        pos
    }
}

/// The lines that stand at `pos`, each with the end of line after it where
/// there is one, up to the first position at which no line stands.
pub open spec fn logs_at(s: Seq<char>, pos: int, prefixes: Seq<Seq<char>>) -> (Seq<LogSpec>, int)
    decreases s.len() - pos,
{
    match log_at(s, pos, prefixes) {
        Some(found) => {
            if pos < found.1 <= s.len() {
                let rest = logs_at(s, after_line_end(s, found.1), prefixes);
                (seq![found.0] + rest.0, rest.1)
            } else {
                (Seq::empty(), pos)
            }
        },
        None => (Seq::empty(), pos),
    }
}

/// The day that stands at `pos`: a date, an end of line, blank characters,
/// and the lines of the day.
pub open spec fn entry_at(s: Seq<char>, pos: int, prefixes: Seq<Seq<char>>) -> Result<
    (EntrySpec, int),
    ParseError,
> {
    match date_at(s, pos) {
        Ok(date) => {
            if after_line_end(s, date.1) > date.1 {
                let logs = logs_at(
                    s,
                    run_end(s, after_line_end(s, date.1), CharClass::Blank),
                    prefixes,
                );
                Ok((EntrySpec { date: date.0, logs: logs.0 }, logs.1))
            } else {
                Err(ParseError::Unmatched { position: pos as usize })
            }
        },
        Err(error) => Err(error),
    }
}

/// The days that stand at `pos`, each with the blank characters after it,
/// up to the first position at which no day stands. A date that names no
/// day of the calendar is an error.
pub open spec fn entries_at(s: Seq<char>, pos: int, prefixes: Seq<Seq<char>>) -> Result<
    (Seq<EntrySpec>, int),
    ParseError,
>
    decreases s.len() - pos,
{
    match entry_at(s, pos, prefixes) {
        Ok(found) => {
            let next = run_end(s, found.1, CharClass::Blank);
            if pos < next <= s.len() {
                match entries_at(s, next, prefixes) {
                    Ok(rest) => Ok((seq![found.0] + rest.0, rest.1)),
                    Err(error) => Err(error),
                }
            } else {
                Ok((Seq::empty(), pos))
            }
        },
        Err(ParseError::InvalidDate { position }) => Err(ParseError::InvalidDate { position }),
        Err(_) => Ok((Seq::empty(), pos)),
    }
}

/// The error for text that is left over at `pos`: a malformed time where a
/// number and a colon stand there and no time, else unmatched input.
pub open spec fn leftover_at(s: Seq<char>, pos: int) -> ParseError {
    match number_at(s, pos) {
        Some(hour) => {
            if char_at(s, hour.1, ':') && time_at(s, pos) is None {
                ParseError::MalformedTime { position: pos as usize }
            } else {
                ParseError::Unmatched { position: pos as usize }
            }
        },
        None => ParseError::Unmatched { position: pos as usize },
    }
}

/// The days of a time sheet in the order in which they stand in it: blank
/// characters, then days up to the end of the text. Text that is left over
/// is an error at the position at which it starts: a malformed time where
/// it begins like a time, else unmatched input.
pub open spec fn entries_of(s: Seq<char>, prefixes: Seq<Seq<char>>) -> Result<
    Seq<EntrySpec>,
    ParseError,
> {
    match entries_at(s, run_end(s, 0, CharClass::Blank), prefixes) {
        Ok(found) => {
            if found.1 == s.len() {
                Ok(found.0)
            } else {
                Err(leftover_at(s, found.1))
            }
        },
        Err(error) => Err(error),
    }
}

/// The tokens as they were written, one after the other.
pub open spec fn tokens_written(tokens: Seq<TokenSpec>) -> Seq<char>
    decreases tokens.len(),
{
    if tokens.len() == 0 {
        Seq::empty()
    } else {
        tokens_written(tokens.drop_last()) + tokens.last().written()
    }
}

/// Tokens that stand one after the other were written one after the other.
pub proof fn lemma_tokens_written_add(a: Seq<TokenSpec>, b: Seq<TokenSpec>)
    ensures
        tokens_written(a + b) == tokens_written(a) + tokens_written(b),
    decreases b.len(),
{
    if b.len() == 0 {
        assert(a + b =~= a);
        assert(tokens_written(a) + tokens_written(b) =~= tokens_written(a));
    } else {
        assert((a + b).drop_last() =~= a + b.drop_last());
        assert((a + b).last() == b.last());
        lemma_tokens_written_add(a, b.drop_last());
        assert(tokens_written(a + b) =~= tokens_written(a) + tokens_written(b));
    }
}

/// The tokens that stand at a position, as they were written, are the text
/// from that position up to the position that comes with them.
pub proof fn lemma_tokens_cover_text(s: Seq<char>, pos: int, prefixes: Seq<Seq<char>>)
    requires
        0 <= pos <= s.len(),
    ensures
        pos <= tokens_at(s, pos, prefixes).1 <= s.len(),
        tokens_written(tokens_at(s, pos, prefixes).0) == s.subrange(
            pos,
            tokens_at(s, pos, prefixes).1,
        ),
    decreases s.len() - pos,
{
    lemma_token_at(s, pos, prefixes);
    match token_at(s, pos, prefixes) {
        Some(found) => {
            lemma_tokens_cover_text(s, found.1, prefixes);
            let rest = tokens_at(s, found.1, prefixes);
            lemma_tokens_written_add(seq![found.0], rest.0);
            assert(seq![found.0].drop_last() =~= Seq::<TokenSpec>::empty());
            assert(seq![found.0].last() == found.0);
            assert(tokens_written(Seq::<TokenSpec>::empty()) =~= Seq::<char>::empty());
            assert(tokens_written(seq![found.0]) =~= found.0.written());
            assert(s.subrange(pos, found.1) + s.subrange(found.1, rest.1) =~= s.subrange(
                pos,
                rest.1,
            ));
        },
        None => {
            assert(s.subrange(pos, pos) =~= Seq::<char>::empty());
        },
    }
}

/// Tokens among which there is no tag were written as their text and the
/// whitespace after it.
pub proof fn lemma_source_is_written(tokens: Seq<TokenSpec>)
    requires
        forall|i: int| 0 <= i < tokens.len() ==> (#[trigger] tokens[i]).kind != TokenKind::Tag,
    ensures
        tokens_source(tokens) == tokens_written(tokens),
    decreases tokens.len(),
{
    if tokens.len() > 0 {
        assert forall|i: int| 0 <= i < tokens.drop_last().len() implies (
        #[trigger] tokens.drop_last()[i]).kind != TokenKind::Tag by {
            assert(tokens.drop_last()[i] == tokens[i]);
        }
        lemma_source_is_written(tokens.drop_last());
        assert(tokens.last() == tokens[tokens.len() - 1]);
    }
}

/// The description of a line that holds no tag gives back, token by token,
/// the text of the source from which it was read.
pub proof fn lemma_description_round_trip(s: Seq<char>, pos: int, prefixes: Seq<Seq<char>>)
    requires
        0 <= pos <= s.len(),
        forall|i: int|
            0 <= i < tokens_at(s, pos, prefixes).0.len() ==> (#[trigger] tokens_at(
                s,
                pos,
                prefixes,
            ).0[i]).kind != TokenKind::Tag,
    ensures
        tokens_source(tokens_at(s, pos, prefixes).0) == s.subrange(
            pos,
            tokens_at(s, pos, prefixes).1,
        ),
{
    lemma_tokens_cover_text(s, pos, prefixes);
    lemma_source_is_written(tokens_at(s, pos, prefixes).0);
}


/// The number that stands at `from`, and the position after it.
pub fn date_digits_i32(text: &[char], from: usize) -> (found: Option<(i32, usize)>)
    ensures
        match found {
            Some((value, next)) => number_at(text@, from as int) == Some(
                (value as int, next as int),
            ),
            None => number_at(text@, from as int) is None,
        },
{
    if from >= text.len() {
        return None;
    }
    let end = skip_run(text, from, CharClass::Digit);
    if end == from {
        return None;
    }
    let ghost digits = text@.subrange(from as int, end as int);
    proof {
        lemma_run_end(text@, from as int, CharClass::Digit);
        assert(text@.subrange(from as int, from as int) =~= Seq::<char>::empty());
    }
    let mut value: i64 = 0;
    let mut i: usize = from;
    while i < end
        invariant
            from <= i <= end <= text@.len(),
            end == run_end(text@, from as int, CharClass::Digit),
            digits == text@.subrange(from as int, end as int),
            forall|k: int| from <= k < end ==> crate::text::is_digit(#[trigger] text@[k]),
            0 <= value <= i32::MAX,
            value == decimal_value(text@.subrange(from as int, i as int)),
        decreases end - i,
    {
        let digit = value_of_digit(text[i]);
        let next = value * 10 + digit as i64;
        proof {
            let longer = text@.subrange(from as int, i + 1);
            assert(longer.drop_last() =~= text@.subrange(from as int, i as int));
            assert(longer.last() == text@[i as int]);
            assert(digits.take(i + 1 - from) =~= longer);
            lemma_decimal_value_grows(digits, i + 1 - from);
        }
        if next > i32::MAX as i64 {
            return None;
        }
        value = next;
        i += 1;
    }
    Some((value as i32, end))
}

fn has_char(text: &[char], at: usize, c: char) -> (b: bool)
    ensures
        b == char_at(text@, at as int, c),
{
    at < text.len() && text[at] == c
}

/// The date that stands at `from`, and the position after it.
pub fn date(text: &[char], from: usize) -> (found: Result<(Date, usize), ParseError>)
    ensures
        match found {
            Ok((date, next)) => date_at(text@, from as int) == Ok::<(DateSpec, int), ParseError>(
                (date@, next as int),
            ),
            Err(error) => date_at(text@, from as int) == Err::<(DateSpec, int), ParseError>(error),
        },
{
    let unmatched = Err(ParseError::Unmatched { position: from });
    let (year, after_year) = match date_digits_i32(text, from) {
        Some(found) => found,
        None => {
            return unmatched;
        },
    };
    if after_year >= text.len() {
        return unmatched;
    }
    let (month, after_month) = match date_digits_i32(text, after_year + 1) {
        Some(found) => found,
        None => {
            return unmatched;
        },
    };
    if after_month >= text.len() {
        return unmatched;
    }
    let (day, next) = match date_digits_i32(text, after_month + 1) {
        Some(found) => found,
        None => {
            return unmatched;
        },
    };
    if !has_char(text, after_year, '-') || !has_char(text, after_month, '-') {
        return unmatched;
    }
    match Date::from_ymd_opt(year, month as u32, day as u32) {
        Some(date) => Ok((date, next)),
        None => Err(ParseError::InvalidDate { position: from }),
    }
}

/// The time that stands at `from`, and the position after it.
pub fn time(text: &[char], from: usize) -> (found: Option<(Time, usize)>)
    ensures
        match found {
            Some((time, next)) => time_at(text@, from as int) == Some((time@, next as int)),
            None => time_at(text@, from as int) is None,
        },
{
    let (hour, after_hour) = match date_digits_i32(text, from) {
        Some(found) => found,
        None => {
            return None;
        },
    };
    if after_hour >= text.len() {
        return None;
    }
    let (minute, next) = match date_digits_i32(text, after_hour + 1) {
        Some(found) => found,
        None => {
            return None;
        },
    };
    if !has_char(text, after_hour, ':') {
        return None;
    }
    Some((Time::from_hm(hour as u32, minute as u32), next))
}

/// The span of time that stands at `from`, and the position after it.
pub fn time_range(text: &[char], from: usize) -> (found: Option<(TimeRange, usize)>)
    ensures
        match found {
            Some((range, next)) => time_range_at(text@, from as int) == Some(
                (range@, next as int),
            ),
            None => time_range_at(text@, from as int) is None,
        },
{
    let (start, after_start) = match time(text, from) {
        Some(found) => found,
        None => {
            return None;
        },
    };
    if after_start < text.len() {
        match time(text, after_start + 1) {
            Some((end, next)) => {
                if has_char(text, after_start, '-') {
                    return Some((TimeRange::from_start_end(start, end), next));
                }
            },
            None => {},
        }
    } else {
        proof {
            assert(number_at(text@, after_start + 1) is None);
        }
    }
    Some((TimeRange::from_start(start), after_start))
}

/// Numbers, times and spans of time end within the text.
pub proof fn lemma_time_range_at(s: Seq<char>, pos: int)
    ensures
        number_at(s, pos) matches Some(found) ==> pos < found.1 <= s.len(),
        time_at(s, pos) matches Some(found) ==> pos < found.1 <= s.len(),
        time_range_at(s, pos) matches Some(found) ==> pos < found.1 <= s.len(),
        date_at(s, pos) matches Ok(found) ==> pos < found.1 <= s.len(),
{
    if number_at(s, pos) is Some {
        lemma_run_end(s, pos, CharClass::Digit);
        let first = number_at(s, pos)->0;
        if number_at(s, first.1 + 1) is Some {
            lemma_run_end(s, first.1 + 1, CharClass::Digit);
            let second = number_at(s, first.1 + 1)->0;
            if number_at(s, second.1 + 1) is Some {
                lemma_run_end(s, second.1 + 1, CharClass::Digit);
            }
        }
    }
    if time_at(s, pos) is Some {
        let start = time_at(s, pos)->0;
        if number_at(s, start.1 + 1) is Some {
            lemma_run_end(s, start.1 + 1, CharClass::Digit);
            let first = number_at(s, start.1 + 1)->0;
            if number_at(s, first.1 + 1) is Some {
                lemma_run_end(s, first.1 + 1, CharClass::Digit);
            }
        }
    }
}

/// The line that stands at `from`, and the position after it.
pub fn log(text: &[char], from: usize, config: &Config) -> (found: Option<(Log, usize)>)
    ensures
        match found {
            Some((log, next)) => log_at(text@, from as int, config.prefixes()) == Some(
                (log@, next as int),
            ),
            None => log_at(text@, from as int, config.prefixes()) is None,
        },
{
    let ghost prefixes = config.prefixes();
    let (time, after_time) = match time_range(text, from) {
        Some(found) => found,
        None => {
            return None;
        },
    };
    proof {
        lemma_time_range_at(text@, from as int);
    }
    let start = skip_run(text, after_time, CharClass::Space);
    let mut tokens: Vec<Token> = Vec::new();
    let mut pos: usize = start;
    let mut more = true;
    proof {
        assert(token_views(tokens@) + tokens_at(text@, pos as int, prefixes).0 =~= tokens_at(
            text@,
            start as int,
            prefixes,
        ).0);
    }
    while more
        invariant
            prefixes == config.prefixes(),
            start <= pos <= text@.len(),
            tokens_at(text@, start as int, prefixes).0 == token_views(tokens@) + tokens_at(
                text@,
                pos as int,
                prefixes,
            ).0,
            tokens_at(text@, start as int, prefixes).1 == tokens_at(text@, pos as int, prefixes).1,
            !more ==> token_at(text@, pos as int, prefixes) is None,
        decreases text@.len() - pos, if more { 1int } else { 0int },
    {
        proof {
            lemma_token_at(text@, pos as int, prefixes);
        }
        match token(text, pos, config) {
            Some((found, next)) => {
                let ghost before = token_views(tokens@);
                tokens.push(found);
                proof {
                    assert(token_views(tokens@) =~= before.push(found@));
                    assert(token_views(tokens@) + tokens_at(text@, next as int, prefixes).0
                        =~= before + (seq![found@] + tokens_at(text@, next as int, prefixes).0));
                }
                pos = next;
            },
            None => {
                more = false;
            },
        }
    }
    proof {
        assert(token_views(tokens@) + Seq::<TokenSpec>::empty() =~= token_views(tokens@));
    }
    Some((Log { time, description: Tokens::new(tokens) }, pos))
}

fn skip_line_end(text: &[char], from: usize) -> (next: usize)
    requires
        from <= text@.len(),
    ensures
        next == after_line_end(text@, from as int),
        from <= next <= text@.len(),
{
    let len = text.len();
    if from < len && text[from] == '\n' {
        from + 1
    } else if from < len && len - from > 1 && text[from] == '\r' && text[from + 1] == '\n' {
        from + 2
    } else {
        from
    }
}

/// Lines end within the text.
pub proof fn lemma_log_at(s: Seq<char>, pos: int, prefixes: Seq<Seq<char>>)
    ensures
        log_at(s, pos, prefixes) matches Some(found) ==> pos < found.1 <= s.len(),
{
    lemma_time_range_at(s, pos);
    if time_range_at(s, pos) is Some {
        let time = time_range_at(s, pos)->0;
        lemma_run_end(s, time.1, CharClass::Space);
        lemma_tokens_cover_text(s, run_end(s, time.1, CharClass::Space), prefixes);
    }
}

/// The day that stands at `from`, and the position after it.
pub fn entry(text: &[char], from: usize, config: &Config) -> (found: Result<
    (Entry, usize),
    ParseError,
>)
    ensures
        match found {
            Ok((entry, next)) => entry_at(text@, from as int, config.prefixes()) == Ok::<
                (EntrySpec, int),
                ParseError,
            >((entry@, next as int)),
            Err(error) => entry_at(text@, from as int, config.prefixes()) == Err::<
                (EntrySpec, int),
                ParseError,
            >(error),
        },
{
    let ghost prefixes = config.prefixes();
    let (date, after_date) = match date(text, from) {
        Ok(found) => found,
        Err(error) => {
            return Err(error);
        },
    };
    proof {
        lemma_time_range_at(text@, from as int);
    }
    let after_line = skip_line_end(text, after_date);
    if after_line == after_date {
        return Err(ParseError::Unmatched { position: from });
    }
    let start = skip_run(text, after_line, CharClass::Blank);
    let mut logs: Vec<Log> = Vec::new();
    let mut pos: usize = start;
    let mut more = true;
    proof {
        assert(log_views(logs@) + logs_at(text@, pos as int, prefixes).0 =~= logs_at(
            text@,
            start as int,
            prefixes,
        ).0);
    }
    while more
        invariant
            prefixes == config.prefixes(),
            start <= pos <= text@.len(),
            logs_at(text@, start as int, prefixes).0 == log_views(logs@) + logs_at(
                text@,
                pos as int,
                prefixes,
            ).0,
            logs_at(text@, start as int, prefixes).1 == logs_at(text@, pos as int, prefixes).1,
            !more ==> log_at(text@, pos as int, prefixes) is None,
        decreases text@.len() - pos, if more { 1int } else { 0int },
    {
        proof {
            lemma_log_at(text@, pos as int, prefixes);
        }
        match log(text, pos, config) {
            Some((found, next)) => {
                let ghost before = log_views(logs@);
                let after = skip_line_end(text, next);
                logs.push(found);
                proof {
                    assert(log_views(logs@) =~= before.push(found@));
                    assert(log_views(logs@) + logs_at(text@, after as int, prefixes).0 =~= before
                        + (seq![found@] + logs_at(text@, after as int, prefixes).0));
                }
                pos = after;
            },
            None => {
                more = false;
            },
        }
    }
    proof {
        assert(log_views(logs@) + Seq::<LogSpec>::empty() =~= log_views(logs@));
    }
    Ok((Entry { date, logs }, pos))
}


/// Whether the days stand in the order of their dates, the earliest first.
pub open spec fn is_sorted_by_date(entries: Seq<EntrySpec>) -> bool {
    forall|i: int, j: int|
        0 <= i < j < entries.len() ==> (#[trigger] entries[i]).date.not_after(
            (#[trigger] entries[j]).date,
        )
}

/// The test that a day has this date.
pub open spec fn has_date(date: DateSpec) -> spec_fn(EntrySpec) -> bool {
    |entry: EntrySpec| entry.date == date
}

/// Whether `sorted` holds the days of `given` in the order of their dates,
/// the days of one date in the order in which they stand in `given`.
pub open spec fn is_stable_sort_by_date(sorted: Seq<EntrySpec>, given: Seq<EntrySpec>) -> bool {
    &&& sorted.len() == given.len()
    &&& is_sorted_by_date(sorted)
    &&& forall|date: DateSpec| #[trigger]
        sorted.filter(has_date(date)) == given.filter(has_date(date))
}

/// Of a sequence of which no element passes a test the filtering is empty.
pub proof fn lemma_filter_drops_all<A>(s: Seq<A>, pred: spec_fn(A) -> bool)
    requires
        forall|i: int| 0 <= i < s.len() ==> !pred(#[trigger] s[i]),
    ensures
        s.filter(pred) == Seq::<A>::empty(),
    decreases s.len(),
{
    reveal(Seq::filter);
    if s.len() > 0 {
        lemma_filter_drops_all(s.drop_last(), pred);
    }
}

/// Puts the days in the order of their dates, the earliest first; days of
/// one date keep their order.
pub fn process_entries(entries: &mut Vec<Entry>)
    ensures
        is_stable_sort_by_date(entry_views(final(entries)@), entry_views(old(entries)@)),
{
    let ghost given = entry_views(entries@);
    let mut sorted: Vec<Entry> = Vec::new();
    proof {
        assert(given.skip(given.len() as int) =~= Seq::<EntrySpec>::empty());
        assert(entry_views(sorted@) =~= Seq::<EntrySpec>::empty());
        assert(given.take(given.len() as int) =~= given);
    }
    while entries.len() > 0
        invariant
            entries@.len() <= given.len(),
            entry_views(entries@) == given.take(entries@.len() as int),
            sorted@.len() + entries@.len() == given.len(),
            is_sorted_by_date(entry_views(sorted@)),
            forall|date: DateSpec| #[trigger]
                entry_views(sorted@).filter(has_date(date)) == given.skip(
                    entries@.len() as int,
                ).filter(has_date(date)),
        decreases entries@.len(),
    {
        let ghost rest_before = entry_views(entries@);
        let ghost sorted_before = entry_views(sorted@);
        let ghost left = entries@.len() as int;
        let entry = entries.pop().unwrap();
        let ghost moved = entry@;
        proof {
            assert(rest_before[left - 1] == moved);
            assert(given.take(left)[left - 1] == given[left - 1]);
            assert(moved == given[left - 1]);
            assert(entry_views(entries@) =~= rest_before.drop_last());
            assert(entry_views(entries@) =~= given.take(left - 1));
            assert(sorted_before.take(0) =~= Seq::<EntrySpec>::empty());
        }
        let mut at: usize = 0;
        while at < sorted.len() && sorted[at].date.is_before(&entry.date)
            invariant
                at <= sorted@.len(),
                sorted_before == entry_views(sorted@),
                moved == entry@,
                forall|i: int|
                    0 <= i < at ==> (#[trigger] sorted_before[i]).date.precedes(moved.date),
            decreases sorted@.len() - at,
        {
            proof {
                assert(sorted_before[at as int] == sorted@[at as int]@);
            }
            at += 1;
        }
        proof {
            if at < sorted@.len() {
                assert(sorted_before[at as int] == sorted@[at as int]@);
                assert(!sorted_before[at as int].date.precedes(moved.date));
            }
        }
        sorted.insert(at, entry);
        proof {
            let sorted_after = entry_views(sorted@);
            let front = sorted_before.take(at as int);
            let back = sorted_before.skip(at as int);
            assert(sorted_after =~= sorted_before.insert(at as int, moved));
            assert(sorted_after =~= front + seq![moved] + back);
            assert(sorted_before =~= front + back);
            assert(given.skip(left - 1) =~= seq![moved] + given.skip(left));
            assert forall|i: int, j: int| 0 <= i < j < sorted_after.len() implies (
            #[trigger] sorted_after[i]).date.not_after((#[trigger] sorted_after[j]).date) by {
                if i < at && j > at {
                    assert(sorted_after[i] == sorted_before[i]);
                    assert(sorted_after[j] == sorted_before[j - 1]);
                } else if i < at && j < at {
                    assert(sorted_after[i] == sorted_before[i]);
                    assert(sorted_after[j] == sorted_before[j]);
                } else if i < at && j == at {
                    assert(sorted_after[i] == sorted_before[i]);
                } else if i > at {
                    assert(sorted_after[i] == sorted_before[i - 1]);
                    assert(sorted_after[j] == sorted_before[j - 1]);
                } else {
                    assert(sorted_after[j] == sorted_before[j - 1]);
                    if j - 1 > at {
                        assert(sorted_before[at as int].date.not_after(
                            sorted_before[j - 1].date,
                        ));
                    }
                }
            }
            assert forall|date: DateSpec| #[trigger]
                sorted_after.filter(has_date(date)) == given.skip(left - 1).filter(
                    has_date(date),
                ) by {
                let pred = has_date(date);
                Seq::filter_distributes_over_add(front + seq![moved], back, pred);
                Seq::filter_distributes_over_add(front, seq![moved], pred);
                Seq::filter_distributes_over_add(front, back, pred);
                Seq::filter_distributes_over_add(seq![moved], given.skip(left), pred);
                assert(sorted_before.filter(pred) == given.skip(left).filter(pred));
                if date == moved.date {
                    assert forall|i: int| 0 <= i < front.len() implies !pred(
                        #[trigger] front[i],
                    ) by {
                        assert(front[i] == sorted_before[i]);
                    }
                    lemma_filter_drops_all(front, pred);
                    assert(front.filter(pred) + seq![moved].filter(pred) =~= seq![moved].filter(
                        pred,
                    ));
                    assert(front.filter(pred) + back.filter(pred) =~= back.filter(pred));
                } else {
                    lemma_filter_drops_all(seq![moved], pred);
                    assert(front.filter(pred) + seq![moved].filter(pred) =~= front.filter(pred));
                    assert(seq![moved].filter(pred) + given.skip(left).filter(pred)
                        =~= given.skip(left).filter(pred));
                }
            }
        }
    }
    proof {
        assert(given.skip(0) =~= given);
    }
    *entries = sorted;
}

/// Days end within the text.
pub proof fn lemma_entry_at(s: Seq<char>, pos: int, prefixes: Seq<Seq<char>>)
    requires
        0 <= pos,
    ensures
        entry_at(s, pos, prefixes) matches Ok(found) ==> pos < found.1 <= s.len(),
{
    lemma_time_range_at(s, pos);
    if date_at(s, pos) is Ok {
        let date = date_at(s, pos)->Ok_0;
        let after = after_line_end(s, date.1);
        lemma_run_end(s, after, CharClass::Blank);
        lemma_logs_at(s, run_end(s, after, CharClass::Blank), prefixes);
    }
}

/// Lines that stand one after the other end within the text.
pub proof fn lemma_logs_at(s: Seq<char>, pos: int, prefixes: Seq<Seq<char>>)
    requires
        0 <= pos <= s.len(),
    ensures
        pos <= logs_at(s, pos, prefixes).1 <= s.len(),
    decreases s.len() - pos,
{
    lemma_log_at(s, pos, prefixes);
    match log_at(s, pos, prefixes) {
        Some(found) => {
            lemma_logs_at(s, after_line_end(s, found.1), prefixes);
        },
        None => {},
    }
}

/// The error for text that is left over at `from`.
fn leftover(text: &[char], from: usize) -> (error: ParseError)
    ensures
        error == leftover_at(text@, from as int),
{
    match date_digits_i32(text, from) {
        Some((_, after_hour)) => {
            if has_char(text, after_hour, ':') && time(text, from).is_none() {
                ParseError::MalformedTime { position: from }
            } else {
                ParseError::Unmatched { position: from }
            }
        },
        None => ParseError::Unmatched { position: from },
    }
}

/// Reads a time sheet: its days, sorted by their dates. A date that names
/// no day of the calendar, or text that is no part of a day, is an error.
pub fn parse_entry(text: &str, config: &Config) -> (parsed: Result<Entries, ParseError>)
    ensures
        match parsed {
            Ok(entries) => entries_of(text@, config.prefixes()) matches Ok(given)
                && is_stable_sort_by_date(entries@, given),
            Err(error) => entries_of(text@, config.prefixes()) == Err::<
                Seq<EntrySpec>,
                ParseError,
            >(error),
        },
{
    let ghost prefixes = config.prefixes();
    let chars = chars_of(text);
    let start = skip_run(chars.as_slice(), 0, CharClass::Blank);
    let mut entries: Vec<Entry> = Vec::new();
    let mut pos: usize = start;
    let mut more = true;
    proof {
        assert(entries_at(text@, start as int, prefixes) matches Ok(rest) ==> entry_views(
            entries@,
        ) + rest.0 =~= rest.0);
    }
    while more
        invariant
            prefixes == config.prefixes(),
            chars@ == text@,
            start == run_end(text@, 0, CharClass::Blank),
            start <= pos <= chars@.len(),
            match entries_at(text@, pos as int, prefixes) {
                Ok(rest) => entries_at(text@, start as int, prefixes) == Ok::<
                    (Seq<EntrySpec>, int),
                    ParseError,
                >((entry_views(entries@) + rest.0, rest.1)),
                Err(error) => entries_at(text@, start as int, prefixes) == Err::<
                    (Seq<EntrySpec>, int),
                    ParseError,
                >(error),
            },
            !more ==> entries_at(text@, pos as int, prefixes) == Ok::<
                (Seq<EntrySpec>, int),
                ParseError,
            >((Seq::empty(), pos as int)),
        decreases chars@.len() - pos, if more { 1int } else { 0int },
    {
        proof {
            lemma_entry_at(text@, pos as int, prefixes);
        }
        match entry(chars.as_slice(), pos, config) {
            Ok((found, next)) => {
                let ghost before = entry_views(entries@);
                let after = skip_run(chars.as_slice(), next, CharClass::Blank);
                entries.push(found);
                proof {
                    assert(entry_views(entries@) =~= before.push(found@));
                    assert(entries_at(text@, after as int, prefixes) matches Ok(rest)
                        ==> entry_views(entries@) + rest.0 =~= before + (seq![found@] + rest.0));
                }
                pos = after;
            },
            Err(ParseError::InvalidDate { position }) => {
                return Err(ParseError::InvalidDate { position });
            },
            Err(_) => {
                more = false;
            },
        }
    }
    proof {
        assert(entry_views(entries@) + Seq::<EntrySpec>::empty() =~= entry_views(entries@));
    }
    if pos != chars.len() {
        return Err(leftover(chars.as_slice(), pos));
    }
    process_entries(&mut entries);
    Ok(Entries { entries })
}

} // verus!
