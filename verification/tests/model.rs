use pttlogger::calendar::{Date, Time, Timestamp};
use pttlogger::model::{LogDay, LogDays, TimeRangeView};
use pttlogger::parser::filter::{Criteria, Filter, TokenIs};
use pttlogger::parser::timesheet::{Entry, Log, TimeRange, Tokens};
use pttlogger::parser::token::{Token, TokenKind};

fn at(y: i32, m: u32, d: u32, h: u32, i: u32) -> Timestamp {
    Timestamp::new(Date::from_ymd(y, m, d), Time::from_hm(h, i))
}

fn three_open_lines() -> Entry {
    Entry {
        date: Date::from_ymd(2022, 01, 01),
        logs: vec![
            Log {
                time: TimeRange::from_start(Time::from_hm(10, 0)),
                description: Tokens::from_prose("foo".to_string()),
            },
            Log {
                time: TimeRange::from_start(Time::from_hm(11, 0)),
                description: Tokens::from_prose("foo".to_string()),
            },
            Log {
                time: TimeRange::from_start(Time::from_hm(13, 0)),
                description: Tokens::from_prose("foo".to_string()),
            },
        ],
    }
}

fn two_tagged_lines() -> Entry {
    Entry {
        date: Date::from_ymd(2022, 01, 01),
        logs: vec![
            Log {
                time: TimeRange::from_start_end(Time::from_hm(10, 0), Time::from_hm(10, 30)),
                description: Tokens::new(vec![Token::tag("foobar".to_string())]),
            },
            Log {
                time: TimeRange::from_start_end(Time::from_hm(10, 0), Time::from_hm(11, 0)),
                description: Tokens::new(vec![
                    Token::tag("barfoo".to_string()),
                    Token::tag("foobar".to_string()),
                ]),
            },
        ],
    }
}

#[test]
fn model_time_range_view_duration() {
    let t = TimeRangeView {
        start: Time::from_hm(10, 30),
        end: Time::from_hm(12, 0),
        ongoing: false,
    };
    assert_eq!(90, t.duration().num_minutes());
}

#[test]
fn model_time_range_view_duration_overflow() {
    let t = TimeRangeView {
        start: Time::from_hm(23, 30),
        end: Time::from_hm(0, 30),
        ongoing: false,
    };
    assert_eq!(60, t.duration().num_minutes());
}

#[test]
fn model_test_calculates_duration() {
    {
        let entry = three_open_lines();
        let time = at(2022, 01, 01, 0, 0);
        let view = LogDay::new(time, entry);
        assert_eq!(
            "10:00:00-11:00:00",
            view.logs()[0].time_range().to_string()
        )
    }
}

#[test]
fn model_test_view_tag_summary() {
    let entry = two_tagged_lines();
    let time = at(2022, 01, 01, 0, 0);
    let view = LogDay::new(time, entry);
    let summary = view.tag_summary(TokenKind::Tag).unwrap();

    assert_eq!(2, summary.len());

    assert_eq!("barfoo".to_string(), summary.tag_metas[1].tag);
    assert_eq!(1, summary.tag_metas[1].count);
    assert_eq!(60, summary.tag_metas[1].duration.num_minutes());

    assert_eq!("foobar".to_string(), summary.tag_metas[0].tag);
    assert_eq!(2, summary.tag_metas[0].count);
    assert_eq!(90, summary.tag_metas[0].duration.num_minutes());
}

#[test]
fn entries_time_range_view_duration() {
    let t = TimeRangeView {
        start: Time::from_hm(10, 30),
        end: Time::from_hm(12, 0),
        ongoing: false,
    };
    assert_eq!(90, t.duration().num_minutes());
}

#[test]
fn entries_time_range_view_duration_overflow() {
    let t = TimeRangeView {
        start: Time::from_hm(23, 30),
        end: Time::from_hm(0, 30),
        ongoing: false,
    };
    assert_eq!(60, t.duration().num_minutes());
}

#[test]
fn entries_test_calculates_duration() {
    {
        let entry = three_open_lines();
        let time = at(2022, 01, 01, 0, 0);
        let view = LogDay::new(time, entry);
        assert_eq!(
            "10:00:00-11:00:00",
            view.logs()[0].time_range().to_string()
        )
    }
}

#[test]
fn entries_test_view_tag_summary() {
    let entry = two_tagged_lines();
    let time = at(2022, 01, 01, 0, 0);
    let view = LogDay::new(time, entry);
    let summary = view.tag_summary(TokenKind::Tag).unwrap();

    assert_eq!(2, summary.len());

    assert_eq!("barfoo".to_string(), summary.tag_metas[1].tag);
    assert_eq!(1, summary.tag_metas[1].count);
    assert_eq!(60, summary.tag_metas[1].duration.num_minutes());

    assert_eq!("foobar".to_string(), summary.tag_metas[0].tag);
    assert_eq!(2, summary.tag_metas[0].count);
    assert_eq!(90, summary.tag_metas[0].duration.num_minutes());
}

#[test]
fn entry_view_time_range_view_duration() {
    let t = TimeRangeView {
        start: Time::from_hm(10, 30),
        end: Time::from_hm(12, 0),
        ongoing: false,
    };
    assert_eq!(90, t.duration().num_minutes());
}

#[test]
fn entry_view_time_range_view_duration_overflow() {
    let t = TimeRangeView {
        start: Time::from_hm(23, 30),
        end: Time::from_hm(0, 30),
        ongoing: false,
    };
    assert_eq!(60, t.duration().num_minutes());
}

#[test]
fn entry_view_test_calculates_duration() {
    {
        let entry = three_open_lines();
        let time = at(2022, 01, 01, 0, 0);
        let view = LogDay::new(time, entry);
        assert_eq!(
            "10:00:00-11:00:00",
            view.logs()[0].time_range().to_string()
        )
    }
}

#[test]
fn test_entry_view_tag_summary() {
    let entry = two_tagged_lines();
    let time = at(2022, 01, 01, 0, 0);
    let view = LogDay::new(time, entry);

    let summary = view.tag_summary(TokenKind::Tag).unwrap();
    assert_eq!(2, summary.len());

    assert_eq!("barfoo".to_string(), summary.tag_metas[1].tag);
    assert_eq!(1, summary.tag_metas[1].count);
    assert_eq!(60, summary.tag_metas[1].duration.num_minutes());

    assert_eq!("foobar".to_string(), summary.tag_metas[0].tag);
    assert_eq!(2, summary.tag_metas[0].count);
    assert_eq!(90, summary.tag_metas[0].duration.num_minutes());
}

#[test]
fn test_minutes_by_weekday() {
    let mut entries = vec![];
    for day in 1..30 {
        entries.push(Entry {
            date: Date::from_ymd(2022, 01, day),
            logs: vec![Log {
                time: TimeRange::from_start_end(Time::from_hm(10, 0), Time::from_hm(12, 30)),
                description: Tokens::new(vec![Token::tag("foobar".to_string())]),
            }],
        });
    }

    let log_days = LogDays::new(at(2023, 6, 1, 12, 0), entries);

    let minutes_by_weekday = log_days.minutes_by_weekday().unwrap();
    println!("{:?}", minutes_by_weekday);
    assert_eq!(&("Mon", 600), minutes_by_weekday.first().unwrap());
}

#[test]
fn test_filters_by_tag() {
    let days = LogDays::new(
        at(2023, 6, 1, 12, 0),
        vec![Entry {
            date: Date::from_ymd(2022, 01, 1),
            logs: vec![
                Log {
                    time: TimeRange::from_start_end(Time::from_hm(10, 0), Time::from_hm(12, 30)),
                    description: Tokens::new(vec![Token::tag("foobar".to_string())]),
                },
                Log {
                    time: TimeRange::from_start_end(Time::from_hm(10, 0), Time::from_hm(12, 30)),
                    description: Tokens::new(vec![Token::tag("barfoo".to_string())]),
                },
                Log {
                    time: TimeRange::from_start_end(Time::from_hm(10, 0), Time::from_hm(12, 30)),
                    description: Tokens::new(vec![Token::ticket("FOO-1234".to_string())]),
                },
                Log {
                    time: TimeRange::from_start_end(Time::from_hm(10, 0), Time::from_hm(12, 30)),
                    description: Tokens::new(vec![Token::tag("foobar".to_string())]),
                },
            ],
        }],
    );
    assert_eq!(4, days.at(0).logs().len());

    let filtered = days.filter(&Filter::new(vec![Criteria::TokenIs(TokenIs {
        value: "foobar".to_string(),
        kind: TokenKind::Tag,
    })]));
    assert_eq!(2, filtered.at(0).logs().len());

    let filtered = days.filter(&Filter::new(vec![Criteria::TokenIs(TokenIs {
        value: "FOO-1234".to_string(),
        kind: TokenKind::Ticket,
    })]));
    assert_eq!(1, filtered.at(0).logs().len());
}

#[test]
fn log_day_applys_no_filter_with_no_criteria() {
    let day = LogDay::from_entry(
        at(2023, 6, 1, 12, 0),
        Entry {
            date: Date::from_ymd(2022, 01, 1),
            logs: vec![Log {
                time: TimeRange::from_start_end(Time::from_hm(10, 0), Time::from_hm(12, 30)),
                description: Tokens::new(vec![Token::tag("foobar".to_string())]),
            }],
        },
    );

    let day = day.with_filter(&Filter::new(vec![]));
    assert_eq!(1, day.logs().len());
}
