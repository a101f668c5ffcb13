use pttlogger::calendar::{Date, Time, Timestamp};
use pttlogger::config::{Config, KeyName, Project};
use pttlogger::interval::{shift_range, Interval, ReportDuration};
use pttlogger::loader::load;
use pttlogger::model::{LogDay, LogDays, LogDuration, TimeRangeView};
use pttlogger::parser::error::ParseError;
use pttlogger::parser::filter::{
    parse_filter, BinaryOperator, BinaryOperatorKind, Criteria, Filter, Not, TokenIs,
    UnaryOperator, UnaryOperatorKind,
};
use pttlogger::parser::timesheet::{parse_entry, time_range, Entry, Log, TimeRange, Tokens};
use pttlogger::parser::token::{prose_token, tag_token, ticket_token, token, Token, TokenKind};
use pttlogger::summary::{TagMeta, TagMetas};
use pttlogger::text::chars_of;

fn at(y: i32, m: u32, d: u32, h: u32, i: u32) -> Timestamp {
    Timestamp::new(Date::from_ymd(y, m, d), Time::from_hm(h, i))
}

fn project(prefix: &str) -> Config {
    Config {
        projects: vec![Project {
            name: "myproject".to_string(),
            ticket_prefix: prefix.to_string(),
            tags: vec![],
        }],
    }
}

fn tagged(date: Date, from: (u32, u32), to: (u32, u32), tags: &[&str]) -> Entry {
    Entry {
        date,
        logs: vec![Log {
            time: TimeRange::from_start_end(Time::from_hm(from.0, from.1), Time::from_hm(to.0, to.1)),
            description: Tokens::new(tags.iter().map(|t| Token::tag(t.to_string())).collect()),
        }],
    }
}

fn spans(day: &LogDay) -> Vec<(String, i64, bool)> {
    day.logs()
        .iter()
        .map(|l| {
            (
                l.time_range().to_string(),
                l.time_range().duration().num_minutes(),
                l.time_range().ongoing,
            )
        })
        .collect()
}

fn labels(summary: &TagMetas) -> Vec<(String, usize, i64)> {
    let mut all: Vec<(String, usize, i64)> = summary
        .tag_metas
        .iter()
        .map(|m| (m.tag.clone(), m.count, m.duration.num_minutes()))
        .collect();
    all.sort();
    all
}

#[test]
fn resolves_open_lines_of_today() {
    let entries = parse_entry(
        "2022-01-01\n10:00 Working on foo\n11:00 Working on bar\n13:00 Done",
        &Config::empty(),
    )
    .unwrap();
    let days = LogDays::new(at(2022, 1, 1, 23, 59), entries.entries);
    assert_eq!(1, days.len());
    assert_eq!(
        vec![
            ("10:00:00-11:00:00".to_string(), 60, false),
            ("11:00:00-13:00:00".to_string(), 120, false),
            ("13:00:00-23:59:00".to_string(), 659, true),
        ],
        spans(days.at(0))
    );
    assert_eq!(839, days.at(0).duration_total().unwrap().num_minutes());
    assert!(days.at(0).date().is_today());
}

#[test]
fn resolves_last_open_line_of_another_day_to_its_start() {
    let entries = parse_entry("2022-01-01\n10:00 foo\n13:00 Done", &Config::empty()).unwrap();
    let days = LogDays::new(at(2022, 1, 2, 9, 0), entries.entries);
    assert_eq!(
        vec![
            ("10:00:00-13:00:00".to_string(), 180, false),
            ("13:00:00-13:00:00".to_string(), 0, false),
        ],
        spans(days.at(0))
    );
    assert!(!days.at(0).date().is_today());
}

#[test]
fn resolves_explicit_end_before_next_start() {
    let entries =
        parse_entry("2022-01-01\n10:00-10:15 foo\n13:00 Done", &Config::empty()).unwrap();
    let days = LogDays::new(at(2022, 1, 2, 9, 0), entries.entries);
    assert_eq!(("10:00:00-10:15:00".to_string(), 15, false), spans(days.at(0))[0]);
}

#[test]
fn duration_rolls_over_midnight() {
    let late = TimeRangeView { start: Time::from_hm(23, 30), end: Time::from_hm(0, 30), ongoing: false };
    assert_eq!(60, late.duration().num_minutes());
    let same = TimeRangeView { start: Time::from_hm(9, 0), end: Time::from_hm(9, 0), ongoing: false };
    assert_eq!(0, same.duration().num_minutes());
    let almost = TimeRangeView { start: Time::from_hm(9, 0), end: Time::from_hm(8, 59), ongoing: false };
    assert_eq!(1439, almost.duration().num_minutes());
}

#[test]
fn duration_is_written_in_hours_and_minutes() {
    assert_eq!("0m", LogDuration::from_minutes(0).to_string());
    assert_eq!("59m", LogDuration::from_minutes(59).to_string());
    assert_eq!("1h0m", LogDuration::from_minutes(60).to_string());
    assert_eq!("2h30m", LogDuration::from_minutes(150).to_string());
    assert_eq!("-30m", LogDuration::from_minutes(-30).to_string());
    assert_eq!("-1h-30m", LogDuration::from_minutes(-90).to_string());
    assert_eq!("153722867280912930h7m", LogDuration::from_minutes(i64::MAX).to_string());
    assert_eq!("-153722867280912930h-8m", LogDuration::from_minutes(i64::MIN).to_string());
}

#[test]
fn time_wraps_hours_and_minutes() {
    assert_eq!("10:10", Time::from_hm(10, 10).to_string());
    assert_eq!("00:10", Time::from_hm(24, 10).to_string());
    assert_eq!("01:05", Time::from_hm(25, 65).to_string());
    assert_eq!(65, Time::from_hm(25, 65).minutes());
}

#[test]
fn date_is_written_with_padding() {
    assert_eq!("0987-02-03", Date::from_ymd(987, 2, 3).to_string());
    assert_eq!("12345-12-31", Date::from_ymd(12345, 12, 31).to_string());
    assert_eq!("-005-01-01", Date::from_ymd(-5, 1, 1).to_string());
    assert_eq!(20220131, Date::from_ymd(2022, 1, 31).sort_value());
    assert_eq!(-50101, Date::from_ymd(-5, 1, 1).sort_value());
    assert_eq!(2147481231, Date::from_ymd(214748, 12, 31).sort_value());
    assert_eq!("Saturday  1 January, 2022", Date::from_ymd(2022, 1, 1).to_verbose_string());
}

#[test]
fn date_must_exist() {
    assert!(Date::from_ymd_opt(2022, 2, 29).is_none());
    assert!(Date::from_ymd_opt(2024, 2, 29).is_some());
    assert!(Date::from_ymd_opt(1900, 2, 29).is_none());
    assert!(Date::from_ymd_opt(2000, 2, 29).is_some());
    assert!(Date::from_ymd_opt(2022, 13, 1).is_none());
    assert!(Date::from_ymd_opt(2022, 0, 1).is_none());
    assert!(Date::from_ymd_opt(2022, 4, 31).is_none());
    assert!(Date::from_ymd_opt(262142, 12, 31).is_some());
    assert!(Date::from_ymd_opt(262143, 1, 1).is_none());
    assert!(Date::from_ymd_opt(-262143, 1, 1).is_some());
    assert!(Date::from_ymd_opt(-262144, 12, 31).is_none());
}

#[test]
fn weekday_counts_from_monday() {
    assert_eq!(5, Date::from_ymd(2022, 1, 1).weekday());
    assert_eq!(0, Date::from_ymd(2022, 1, 3).weekday());
    assert_eq!(6, Date::from_ymd(2022, 1, 9).weekday());
}

#[test]
fn parse_rejects_a_date_that_does_not_exist() {
    assert_eq!(
        ParseError::InvalidDate { position: 0 },
        parse_entry("2022-02-30\n10:00 foo\n", &Config::empty()).unwrap_err()
    );
    assert_eq!(
        ParseError::InvalidDate { position: 22 },
        parse_entry("2022-01-01\n10:00 foo\n\n2022-13-01\n", &Config::empty()).unwrap_err()
    );
    assert_eq!(
        "invalid date at character 22",
        parse_entry("2022-01-01\n10:00 foo\n\n2022-13-01\n", &Config::empty())
            .unwrap_err()
            .to_string()
    );
}

#[test]
fn parse_rejects_text_that_is_no_day() {
    assert_eq!(
        ParseError::Unmatched { position: 0 },
        parse_entry("hello", &Config::empty()).unwrap_err()
    );
    assert_eq!(
        ParseError::Unmatched { position: 0 },
        parse_entry("2022-01-01", &Config::empty()).unwrap_err()
    );
    assert_eq!(
        ParseError::Unmatched { position: 21 },
        parse_entry("2022-01-01\n10:00 foo\nbar 10:00\n", &Config::empty()).unwrap_err()
    );
    assert_eq!(
        ParseError::Unmatched { position: 0 },
        parse_entry("10:00 foo\n", &Config::empty()).unwrap_err()
    );
    assert_eq!(
        ParseError::Unmatched { position: 2 },
        parse_entry("\n\n99999999999-01-01\n", &Config::empty()).unwrap_err()
    );
    assert_eq!(
        "unmatched input at character 21",
        parse_entry("2022-01-01\n10:00 foo\nbar 10:00\n", &Config::empty())
            .unwrap_err()
            .to_string()
    );
}

#[test]
fn parse_rejects_a_malformed_time() {
    let text = "2022-01-01\n10:00 foo\n10:xx bar\n11:00 baz\n";
    let error = parse_entry(text, &Config::empty()).unwrap_err();
    assert_eq!(ParseError::MalformedTime { position: 21 }, error);
    assert_eq!(21, error.position());
    assert_eq!("malformed time at character 21", error.to_string());
    assert_eq!("10:xx bar", error.fragment(text));
    assert_eq!("", ParseError::Unmatched { position: 99 }.fragment(text));
    assert_eq!(
        "2022-13-01",
        parse_entry("2022-13-01\r\n", &Config::empty()).unwrap_err().fragment("2022-13-01\r\n")
    );
}

#[test]
fn parse_takes_an_empty_text() {
    assert_eq!(0, parse_entry("", &Config::empty()).unwrap().entries.len());
    assert_eq!(0, parse_entry(" \n\t\r\n", &Config::empty()).unwrap().entries.len());
}

#[test]
fn load_puts_a_placeholder_for_no_days() {
    let loaded = load("\n", &Config::empty()).unwrap();
    assert_eq!(1, loaded.entries.len());
    assert_eq!("2015-01-01", loaded.entries[0].date.to_string());
    assert_eq!("07:28-08:28", loaded.entries[0].logs[0].time.to_string());
    assert_eq!(
        "Marty! this plain text time sheet is empty Marty!",
        loaded.entries[0].logs[0].description.to_string()
    );
    let loaded = load("2022-01-01\n", &Config::empty()).unwrap();
    assert_eq!("2022-01-01", loaded.entries[0].date.to_string());
    assert_eq!("2022-01-01", loaded.entries[0].date_object().to_string());
    assert_eq!(ParseError::Unmatched { position: 0 }, load("x", &Config::empty()).unwrap_err());
}

#[test]
fn parse_keeps_days_of_one_date_in_their_order() {
    let entries = parse_entry(
        "2022-01-02\n10:00 b1\n2022-01-01\n10:00 a\n2022-01-02\n10:00 b2\n2021-12-31\n10:00 z\n",
        &Config::empty(),
    )
    .unwrap();
    let got: Vec<(String, String)> = entries
        .entries
        .iter()
        .map(|e| (e.date.to_string(), e.logs[0].description.to_string()))
        .collect();
    assert_eq!(
        vec![
            ("2021-12-31".to_string(), "z".to_string()),
            ("2022-01-01".to_string(), "a".to_string()),
            ("2022-01-02".to_string(), "b1".to_string()),
            ("2022-01-02".to_string(), "b2".to_string()),
        ],
        got
    );
    for pair in entries.entries.windows(2) {
        assert!(!pair[1].date.is_before(&pair[0].date));
    }
}

#[test]
fn description_gives_back_its_text() {
    let text = "2022-01-01\n10:00   Working  on\tfoo PROJECT-1  bar ";
    let entries = parse_entry(text, &project("PROJECT-")).unwrap();
    let description = &entries.entries[0].logs[0].description;
    assert_eq!("Working  on\tfoo PROJECT-1  bar ", description.to_string());
    assert_eq!(4, description.len());
    assert_eq!("on\tfoo", description.at(1).text());
    assert_eq!(TokenKind::Ticket, description.at(2).kind);
    assert_eq!("  ", description.at(2).whitespace);
    let with_tag = parse_entry("2022-01-01\n10:00 a @b c", &Config::empty()).unwrap();
    assert_eq!("a b c", with_tag.entries[0].logs[0].description.to_string());
    assert_eq!(1, with_tag.entries[0].logs[0].description.tags().len());
}

#[test]
fn time_range_without_a_second_time_has_no_end() {
    let text = chars_of("10:00-foo");
    let (range, next) = time_range(&text, 0).unwrap();
    assert_eq!("10:00", range.to_string());
    assert_eq!(5, next);
    let text = chars_of("24:61-7:5 x");
    let (range, next) = time_range(&text, 0).unwrap();
    assert_eq!("00:01-07:05", range.to_string());
    assert_eq!(9, next);
    assert!(time_range(&chars_of("10 00"), 0).is_none());
}

#[test]
fn tokens_are_told_apart_in_order() {
    let config = project("PROJECT-");
    let text = chars_of("PROJECT-123 OTHER-123 @tag  @ PROJECT- x");
    let (first, next) = token(&text, 0, &config).unwrap();
    assert_eq!((TokenKind::Ticket, "PROJECT-123", " "), (first.kind, first.text(), first.whitespace.as_str()));
    let (second, next) = token(&text, next, &config).unwrap();
    assert_eq!((TokenKind::Prose, "OTHER-123"), (second.kind, second.text()));
    let (third, next) = token(&text, next, &config).unwrap();
    assert_eq!((TokenKind::Tag, "tag", "  "), (third.kind, third.text(), third.whitespace.as_str()));
    let (fourth, next) = token(&text, next, &config).unwrap();
    assert_eq!((TokenKind::Prose, "@"), (fourth.kind, fourth.text()));
    let (fifth, next) = token(&text, next, &config).unwrap();
    assert_eq!((TokenKind::Prose, "PROJECT-"), (fifth.kind, fifth.text()));
    let (sixth, next) = token(&text, next, &config).unwrap();
    assert_eq!((TokenKind::Prose, "x"), (sixth.kind, sixth.text()));
    assert_eq!(text.len(), next);
    assert!(token(&text, next, &config).is_none());
    assert!(token(&text, next + 5, &config).is_none());
    assert!(tag_token(&text, 0).is_none());
    assert!(ticket_token(&text, 12, &config).is_none());
    assert!(prose_token(&chars_of("\nx"), 0).is_none());
    let (spaced, _) = prose_token(&chars_of("  x"), 0).unwrap();
    assert_eq!("  x", spaced.text());
}

#[test]
fn first_matching_project_gives_the_ticket() {
    let config = Config {
        projects: vec![
            Project { name: "a".to_string(), ticket_prefix: "AB-".to_string(), tags: vec![] },
            Project { name: "b".to_string(), ticket_prefix: "AB-C".to_string(), tags: vec![] },
            Project { name: "c".to_string(), ticket_prefix: "".to_string(), tags: vec![] },
        ],
    };
    let (found, next) = ticket_token(&chars_of("AB-C1-2"), 0, &config).unwrap();
    assert_eq!(("AB-C1", 5), (found.text(), next));
    let (found, next) = ticket_token(&chars_of("AB--"), 0, &config).unwrap();
    assert_eq!(("AB", 2), (found.text(), next));
    assert!(ticket_token(&chars_of("-"), 0, &config).is_none());
}

#[test]
fn filter_keeps_lines_with_the_tag() {
    let entries = parse_entry(
        "2022-01-01\n10:00-11:00 one @foobar\n11:00-12:00 two @barfoo\n",
        &Config::empty(),
    )
    .unwrap();
    let days = LogDays::new(at(2022, 1, 1, 12, 0), entries.entries);
    let filter = parse_filter("@foobar", &Config::empty()).unwrap();
    let kept = days.filter(&filter);
    assert_eq!(1, kept.at(0).logs().len());
    assert_eq!("one foobar", kept.at(0).logs()[0].description().to_string());
    assert_eq!(2, days.at(0).logs().len());
}

#[test]
fn filter_not_keeps_the_other_line() {
    let day = LogDay::new(
        at(2022, 1, 1, 12, 0),
        Entry {
            date: Date::from_ymd(2022, 1, 1),
            logs: vec![
                Log {
                    time: TimeRange::from_start_end(Time::from_hm(10, 0), Time::from_hm(11, 0)),
                    description: Tokens::new(vec![Token::tag("foobar".to_string())]),
                },
                Log {
                    time: TimeRange::from_start_end(Time::from_hm(11, 0), Time::from_hm(12, 0)),
                    description: Tokens::new(vec![Token::tag("barfoo".to_string())]),
                },
            ],
        },
    );
    let filter = parse_filter("NOT @foobar", &Config::empty()).unwrap();
    let kept = day.with_filter(&filter);
    assert_eq!(1, kept.logs().len());
    assert_eq!("barfoo", kept.logs()[0].description().to_string());
}

#[test]
fn filter_passes_a_line_where_any_token_meets_a_criterion() {
    let day = LogDay::new(
        at(2023, 6, 1, 12, 0),
        Entry {
            date: Date::from_ymd(2022, 1, 1),
            logs: vec![
                Log {
                    time: TimeRange::from_start_end(Time::from_hm(10, 0), Time::from_hm(12, 30)),
                    description: Tokens::new(vec![
                        Token::prose("baz".to_string()),
                        Token::tag("baz".to_string()),
                        Token::tag("foobar".to_string()),
                    ]),
                },
                Log {
                    time: TimeRange::from_start_end(Time::from_hm(13, 0), Time::from_hm(14, 0)),
                    description: Tokens::new(vec![]),
                },
                Log {
                    time: TimeRange::from_start_end(Time::from_hm(14, 0), Time::from_hm(15, 0)),
                    description: Tokens::new(vec![Token::tag("foobar".to_string())]),
                },
            ],
        },
    );
    let not_foobar = Filter::new(vec![Criteria::UnaryOperator(UnaryOperator {
        kind: UnaryOperatorKind::Not,
        operand: Box::new(Criteria::TokenIs(TokenIs {
            value: "foobar".to_string(),
            kind: TokenKind::Tag,
        })),
    })]);
    let kept = day.with_filter(&not_foobar);
    assert_eq!(2, kept.logs().len());
    assert_eq!(0, kept.logs()[1].description().len());
    let again = kept.with_filter(&not_foobar);
    assert_eq!(spans(&kept), spans(&again));
    let unchanged = day.with_filter(&Filter::new(vec![]));
    assert_eq!(spans(&day), spans(&unchanged));
}

#[test]
fn criteria_are_met_token_by_token() {
    let foobar = Token::tag("foobar".to_string());
    let ticket = Token::ticket("foobar".to_string());
    let is_tag = || Criteria::TokenIs(TokenIs { value: "foobar".to_string(), kind: TokenKind::Tag });
    let is_ticket =
        || Criteria::TokenIs(TokenIs { value: "foobar".to_string(), kind: TokenKind::Ticket });
    assert!(is_tag().is_satisfied_with(&foobar));
    assert!(!is_tag().is_satisfied_with(&ticket));
    assert!(!is_tag().is_satisfied_with(&Token::tag("foo".to_string())));
    let and = Criteria::BinaryOperator(BinaryOperator {
        kind: BinaryOperatorKind::And,
        left: Box::new(is_tag()),
        right: Box::new(is_ticket()),
    });
    assert!(!and.is_satisfied_with(&foobar));
    assert_eq!("And(Tag(foobar), Ticket(foobar))", and.to_string());
    let or = Criteria::BinaryOperator(BinaryOperator {
        kind: BinaryOperatorKind::Or,
        left: Box::new(is_tag()),
        right: Box::new(is_ticket()),
    });
    assert!(or.is_satisfied_with(&foobar));
    assert!(or.is_satisfied_with(&ticket));
    assert!(!or.is_satisfied_with(&Token::prose("foobar".to_string())));
    let not = Criteria::Not(Not { criteria: Box::new(or) });
    assert!(!not.is_satisfied_with(&foobar));
    assert!(not.is_satisfied_with(&Token::prose("foobar".to_string())));
    assert_eq!("Not(Or(Tag(foobar), Ticket(foobar)))", not.to_string());
}

#[test]
fn filter_query_must_be_taken_whole() {
    assert_eq!(0, parse_filter("", &Config::empty()).unwrap().criterias.len());
    assert_eq!(
        ParseError::Unmatched { position: 0 },
        parse_filter("@", &Config::empty()).unwrap_err()
    );
    assert_eq!(
        ParseError::Unmatched { position: 8 },
        parse_filter("@foobar hello", &Config::empty()).unwrap_err()
    );
    assert_eq!(
        ParseError::Unmatched { position: 0 },
        parse_filter("AND @a", &Config::empty()).unwrap_err()
    );
    assert_eq!(
        ParseError::Unmatched { position: 0 },
        parse_filter("OR@a @b", &Config::empty()).unwrap_err()
    );
    assert_eq!("Not(Tag(a))", parse_filter("NOT@a", &Config::empty()).unwrap().to_string());
    assert_eq!(
        "Ticket(NOTE-1) Ticket(ORANGE-2)",
        parse_filter("NOTE-1 ORANGE-2", &Config {
            projects: vec![
                Project { name: "n".to_string(), ticket_prefix: "NOTE-".to_string(), tags: vec![] },
                Project { name: "o".to_string(), ticket_prefix: "ORANGE-".to_string(), tags: vec![] },
            ],
        })
        .unwrap()
        .to_string()
    );
}

#[test]
fn weekday_totals_name_every_day() {
    let mut entries = vec![];
    for day in 1..30 {
        entries.push(tagged(Date::from_ymd(2022, 1, day), (10, 0), (12, 30), &["foobar"]));
    }
    let days = LogDays::new(at(2023, 6, 1, 12, 0), entries);
    assert_eq!(
        vec![
            ("Mon", 600),
            ("Tue", 600),
            ("Wed", 600),
            ("Thu", 600),
            ("Fri", 600),
            ("Sat", 750),
            ("Sun", 600),
        ],
        days.minutes_by_weekday().unwrap()
    );
    let none = LogDays::new(at(2023, 6, 1, 12, 0), vec![]);
    assert_eq!(
        vec![("Mon", 0), ("Tue", 0), ("Wed", 0), ("Thu", 0), ("Fri", 0), ("Sat", 0), ("Sun", 0)],
        none.minutes_by_weekday().unwrap()
    );
}

#[test]
fn window_is_half_open() {
    let mut entries = vec![];
    for day in 1..11 {
        entries.push(tagged(Date::from_ymd(2022, 1, day), (10, 0), (11, 0), &["a"]));
    }
    let days = LogDays::new(at(2023, 6, 1, 12, 0), entries);
    let week = days.until(Date::from_ymd(2022, 1, 3), Date::from_ymd(2022, 1, 10));
    assert_eq!(7, week.len());
    assert_eq!("2022-01-03", week.at(0).date().date().to_string());
    assert_eq!("2022-01-09", week.at(6).date().date().to_string());
    assert_eq!(0, days.until(Date::from_ymd(2022, 1, 3), Date::from_ymd(2022, 1, 3)).len());
}

#[test]
fn summary_counts_every_occurrence_over_all_days() {
    let first = vec![
        tagged(Date::from_ymd(2022, 1, 1), (10, 0), (10, 30), &["a", "b", "a"]),
        tagged(Date::from_ymd(2022, 1, 2), (23, 0), (1, 0), &["b"]),
    ];
    let second = vec![tagged(Date::from_ymd(2022, 1, 3), (9, 0), (10, 0), &["a", "c"])];
    let mut both = vec![];
    both.extend(first.iter().cloned());
    both.extend(second.iter().cloned());
    let now = at(2023, 6, 1, 12, 0);
    let first = LogDays::new(now, first).tag_summary(TokenKind::Tag).unwrap();
    let second = LogDays::new(now, second).tag_summary(TokenKind::Tag).unwrap();
    let both = LogDays::new(now, both).tag_summary(TokenKind::Tag).unwrap();
    assert_eq!(
        vec![("a".to_string(), 2, 60), ("b".to_string(), 2, 150)],
        labels(&first)
    );
    assert_eq!(
        vec![("a".to_string(), 3, 120), ("b".to_string(), 2, 150), ("c".to_string(), 1, 60)],
        labels(&both)
    );
    let combined = first.combine(&second).unwrap();
    assert_eq!(labels(&both), labels(&combined));
    assert_eq!("b", combined.tag_metas[0].tag);
    assert_eq!("a", combined.tag_metas[1].tag);
    assert_eq!("c", combined.tag_metas[2].tag);
    assert_eq!(330, combined.duration().unwrap().num_minutes());
    assert_eq!(3, combined.iter().len());
    let tickets = LogDays::new(now, vec![]).tag_summary(TokenKind::Ticket).unwrap();
    assert_eq!(0, tickets.len());
    assert_eq!(labels(&first), labels(&first.combine(&tickets).unwrap()));
}

#[test]
fn summary_gives_none_where_a_sum_is_too_large() {
    let huge = TagMetas {
        tag_metas: vec![TagMeta {
            tag: "a".to_string(),
            kind: TokenKind::Tag,
            duration: LogDuration::from_minutes(i64::MAX),
            count: 1,
        }],
    };
    let one = TagMetas {
        tag_metas: vec![TagMeta {
            tag: "a".to_string(),
            kind: TokenKind::Tag,
            duration: LogDuration::from_minutes(1),
            count: usize::MAX,
        }],
    };
    assert!(huge.combine(&one).is_none());
    assert!(one.combine(&one).is_none());
    let both = TagMetas {
        tag_metas: vec![
            TagMeta {
                tag: "a".to_string(),
                kind: TokenKind::Tag,
                duration: LogDuration::from_minutes(i64::MAX),
                count: 1,
            },
            TagMeta {
                tag: "b".to_string(),
                kind: TokenKind::Tag,
                duration: LogDuration::from_minutes(1),
                count: 1,
            },
        ],
    };
    assert!(both.duration().is_none());
}

#[test]
fn windows_move_by_their_length() {
    let start = Date::from_ymd(2022, 1, 31);
    assert_eq!("2022-02-01", shift_range(&ReportDuration::Day, start, 1).unwrap().to_string());
    assert_eq!("2022-01-24", shift_range(&ReportDuration::Week, start, -1).unwrap().to_string());
    assert_eq!("2022-02-28", shift_range(&ReportDuration::Month, start, 1).unwrap().to_string());
    assert_eq!("2024-02-29", shift_range(&ReportDuration::Month, start, 25).unwrap().to_string());
    assert_eq!("2021-11-30", shift_range(&ReportDuration::Month, start, -2).unwrap().to_string());
    assert_eq!("2020-12-31", shift_range(&ReportDuration::Month, start, -13).unwrap().to_string());
    assert_eq!("2023-01-31", shift_range(&ReportDuration::Year, start, 1).unwrap().to_string());
    assert_eq!(
        "2025-01-30",
        shift_range(&ReportDuration::Year, start, 3).unwrap().to_string()
    );
    assert_eq!(
        "2022-01-31",
        shift_range(&ReportDuration::Month, start, 0).unwrap().to_string()
    );
    assert!(shift_range(&ReportDuration::Week, start, i64::MAX).is_none());
    assert!(shift_range(&ReportDuration::Year, start, i64::MIN).is_none());
    assert!(shift_range(&ReportDuration::Day, start, i64::MAX).is_none());
    assert!(shift_range(&ReportDuration::Month, start, i64::MAX).is_none());
    assert!(shift_range(&ReportDuration::Month, start, 12 * 300_000).is_none());
    assert!(shift_range(&ReportDuration::Day, Date::from_ymd(262142, 12, 31), 1).is_none());
    assert_eq!("week", ReportDuration::Week.to_string());
}

#[test]
fn next_and_previous_pages() {
    let view = Interval::new(Date::from_ymd(2022, 1, 1), ReportDuration::Week).unwrap();

    // 1 week forwards
    let view = view.handle(&KeyName::NextPage).unwrap();
    assert_eq!("2022-01-08", view.date_start.to_string());

    // 1 week back
    let view = view.handle(&KeyName::PreviousPage).unwrap();
    assert_eq!("2022-01-01", view.date_start.to_string());
    assert_eq!("2022-01-08", view.date_end.to_string());
    let same = view.handle(&KeyName::Reload).unwrap();
    assert_eq!("2022-01-01", same.date_start.to_string());
}

#[test]
fn month_window_starts_at_the_end_of_a_month() {
    let view = Interval::new(Date::from_ymd(2022, 11, 30), ReportDuration::Month).unwrap();
    assert_eq!("2022-12-30", view.date_end.to_string());
    let year = Interval::new(Date::from_ymd(2022, 1, 1), ReportDuration::Year).unwrap();
    assert_eq!("2023-01-01", year.date_end.to_string());
}

#[test]
fn keys_are_named_by_their_character() {
    assert_eq!(KeyName::Quit, KeyName::for_char('q'));
    assert_eq!(KeyName::Reload, KeyName::for_char('r'));
    assert_eq!(KeyName::NextPage, KeyName::for_char('n'));
    assert_eq!(KeyName::PreviousPage, KeyName::for_char('p'));
    assert_eq!(KeyName::WeekView, KeyName::for_char('w'));
    assert_eq!(KeyName::MonthView, KeyName::for_char('m'));
    assert_eq!(KeyName::DayView, KeyName::for_char('d'));
    assert_eq!(KeyName::YearView, KeyName::for_char('y'));
    assert_eq!(KeyName::ToggleFilter, KeyName::for_char('f'));
    assert_eq!(KeyName::Unknown, KeyName::for_char('x'));
}

#[test]
fn parse_takes_lines_that_end_in_carriage_return_and_line_feed() {
    let entries =
        parse_entry("2022-01-01\r\n\r\n10:00 foo\r\n11:00-12:00 bar @x\r\n", &Config::empty())
            .unwrap();
    assert_eq!(1, entries.entries.len());
    assert_eq!(2, entries.entries[0].logs.len());
    assert_eq!("foo", entries.entries[0].logs[0].description.to_string());
    assert_eq!("11:00-12:00", entries.entries[0].logs[1].time.to_string());
    assert_eq!(
        1,
        entries.entries[0].logs[1].description.by_kind(TokenKind::Tag).len()
    );
}

#[test]
fn day_gives_its_lines_and_its_total() {
    let day = LogDay::new(
        at(2022, 1, 1, 12, 0),
        tagged(Date::from_ymd(2022, 1, 1), (10, 0), (12, 30), &["a"]),
    );
    assert_eq!(1, day.iter().len());
    assert_eq!(Some(150), day.total_minutes());
    assert_eq!("2h30m", day.duration_total().unwrap().to_string());
    assert_eq!("Saturday  1 January, 2022", day.date().to_verbose_string());
    assert_eq!("12:00", day.date().now().time.to_string());
}

#[test]
fn last_day_of_month() {
    let now = at(2022, 11, 30, 10, 1);
    let monday = now.date.plus_days(-(now.date.weekday() as i64)).unwrap();
    let week = Interval::new(monday, ReportDuration::Week).unwrap();
    assert_eq!(("2022-11-28".to_string(), "2022-12-05".to_string()), (
        week.date_start.to_string(),
        week.date_end.to_string(),
    ));
    let month = Interval::new(
        Date::from_ymd(now.date.year(), now.date.month(), 1),
        ReportDuration::Month,
    )
    .unwrap();
    assert_eq!("2022-12-01", month.date_end.to_string());
    let year = Interval::new(Date::from_ymd(now.date.year(), 1, 1), ReportDuration::Year).unwrap();
    assert_eq!("2023-01-01", year.date_end.to_string());
}
