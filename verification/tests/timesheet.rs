use pttlogger::config::{Config, Project};
use pttlogger::parser::timesheet::{date, date_digits_i32, entry, log, parse_entry};
use pttlogger::parser::token::TokenKind;
use pttlogger::text::chars_of;

fn rest_of(text: &str, from: usize) -> String {
    text.chars().skip(from).collect()
}

fn two_projects() -> Config {
    Config {
        projects: vec![
            Project {
                name: "myproject".to_string(),
                ticket_prefix: "PROJECT-".to_string(),
                tags: vec![],
            },
            Project {
                name: "myproject".to_string(),
                ticket_prefix: "BAR-".to_string(),
                tags: vec![],
            },
        ],
    }
}

#[test]
fn timesheet_test_parse_date_digits() {
    {
        let (value, next) = date_digits_i32(&chars_of("2022"), 0).unwrap();
        assert_eq!(("".to_string(), 2022), (rest_of("2022", next), value));
    }
    {
        let (value, next) = date_digits_i32(&chars_of("2022-10"), 0).unwrap();
        assert_eq!(("-10".to_string(), 2022), (rest_of("2022-10", next), value));
    }
}

#[test]
fn timesheet_test_parse_date() {
    let (date, _) = date(&chars_of("2022-01-02"), 0).unwrap();
    assert_eq!(2022, date.year());
    assert_eq!(01, date.month());
    assert_eq!(02, date.day());
}

#[test]
fn timesheet_test_parse_date_invalid() {
    date(&chars_of("2022 -01-02"), 0).unwrap_err();
}

#[test]
fn timesheet_test_parse_log() {
    {
        let (entry, _) = log(&chars_of("10:00 Working on foo"), 0, &Config::empty()).unwrap();
        assert_eq!("Working on foo".to_string(), entry.description.to_string());
    }

    {
        let (entry, _) = log(&chars_of("09:00    Working on foo"), 0, &Config::empty()).unwrap();
        assert_eq!("Working on foo".to_string(), entry.description.to_string());
    }
}

#[test]
fn timesheet_test_parse_entry() {
    {
        let (entry, _) =
            entry(&chars_of("2022-01-01\n10:00 Working on foo"), 0, &Config::empty()).unwrap();
        assert_eq!("2022-01-01".to_string(), entry.date.to_string());
        assert_eq!(
            "Working on foo".to_string(),
            entry.logs[0].description.to_string()
        );
    }

    {
        let (entry, _) =
            entry(&chars_of("2022-01-01\n\n10:00 Working on foo"), 0, &Config::empty()).unwrap();
        assert_eq!("2022-01-01", entry.date.to_string());
        assert_eq!(
            "Working on foo".to_string(),
            entry.logs[0].description.to_string()
        );
    }

    {
        let (entry, _) = entry(
            &chars_of("2022-01-01\n\n10:00 Working on foo\n11:00 Working on bar"),
            0,
            &Config::empty(),
        )
        .unwrap();
        assert_eq!("2022-01-01", entry.date.to_string());
        assert_eq!(
            "Working on foo".to_string(),
            entry.logs[0].description.to_string()
        );
        assert_eq!(
            "Working on bar".to_string(),
            entry.logs[1].description.to_string()
        );
    }
}

#[test]
fn timesheet_test_parse_entries() {
    {
        let entries = parse_entry(
            "2022-01-01\n10:00 Working on foo\n2022-02-02\n11:00 Foo",
            &Config::empty(),
        )
        .unwrap();
        assert_eq!(2, entries.entries.len());
        assert_eq!(
            "2022-01-01".to_string(),
            entries.entries[0].date.to_string()
        );
        assert_eq!(
            "2022-02-02".to_string(),
            entries.entries[1].date.to_string()
        );
    }
    {
        let entries = parse_entry(
            "2022-01-01\n\n\n10:00 Working on foo\n\n\n2022-02-02\n11:00 Foo",
            &Config::empty(),
        )
        .unwrap();
        assert_eq!(
            "2022-01-01".to_string(),
            entries.entries[0].date.to_string()
        );
        assert_eq!(
            "2022-02-02".to_string(),
            entries.entries[1].date.to_string()
        );
    }

    {
        let entries = parse_entry(
            "\n\n2022-01-01\n10:00 Working on foo\n2022-02-02\n11:00 Foo",
            &Config::empty(),
        )
        .unwrap();
        assert_eq!(
            "2022-01-01".to_string(),
            entries.entries[0].date.to_string()
        );
    }
}

#[test]
fn timesheet_test_sorts_entries_by_date_asc() {
    {
        let entries = parse_entry("2022-01-01\n2021-01-01\n", &Config::empty()).unwrap();
        assert_eq!(2, entries.entries.len());
        assert_eq!(
            "2021-01-01".to_string(),
            entries.entries[0].date.to_string()
        );
        assert_eq!(
            "2022-01-01".to_string(),
            entries.entries[1].date.to_string()
        );
    }
    {
        let entries = parse_entry("2022-01-31\n2022-02-01\n", &Config::empty()).unwrap();
        assert_eq!(2, entries.entries.len());
        assert_eq!(
            "2022-01-31".to_string(),
            entries.entries[0].date.to_string()
        );
        assert_eq!(
            "2022-02-01".to_string(),
            entries.entries[1].date.to_string()
        );
    }
}

#[test]
fn timesheet_test_parses_time_range() {
    {
        let entries = parse_entry("2022-01-01\n20:00-21:00", &Config::empty()).unwrap();
        assert_eq!(1, entries.entries.len());
        assert_eq!(
            "20:00-21:00".to_string(),
            entries.entries[0].logs[0].time.to_string()
        );
    }
}

#[test]
fn timesheet_test_parse_tag() {
    {
        let entries =
            parse_entry("2022-01-01\n20:00-21:00 Foobar @foobar", &Config::empty()).unwrap();
        assert_eq!(1, entries.entries.len());
        assert_eq!(
            "Foobar ".to_string(),
            entries.entries[0].logs[0].description.first().to_string()
        );
        assert_eq!(
            "foobar".to_string(),
            entries.entries[0].logs[0].description.at(1).text
        );
        assert_eq!(
            TokenKind::Tag,
            entries.entries[0].logs[0].description.at(1).kind
        );
    }
    {
        let entries = parse_entry(
            "2022-01-01\n20:00-21:00 Foobar @foobar barfoo",
            &Config::empty(),
        )
        .unwrap();
        assert_eq!(1, entries.entries.len());
        assert_eq!(
            "foobar".to_string(),
            entries.entries[0].logs[0].description.at(1).text
        );
        assert_eq!(
            TokenKind::Tag,
            entries.entries[0].logs[0].description.at(1).kind
        );

        assert_eq!(
            "barfoo".to_string(),
            entries.entries[0].logs[0].description.at(2).text
        );
    }
}

#[test]
fn timesheet_test_parse_ticket() {
    {
        let config = two_projects();
        let entries = parse_entry(
            "2022-01-01\n20:00-21:00 BAR-12 BAZ-15 PROJECT-1 @foobar",
            &config,
        )
        .unwrap();
        assert_eq!(1, entries.entries.len());
        let description = &entries.entries[0].logs[0].description;

        assert_eq!(TokenKind::Ticket, description.at(0).kind);
        assert_eq!("BAR-12".to_string(), description.at(0).text());

        assert_eq!(TokenKind::Prose, description.at(1).kind);
        assert_eq!("BAZ-15".to_string(), description.at(1).text());

        assert_eq!(TokenKind::Ticket, description.at(2).kind);
        assert_eq!("PROJECT-1".to_string(), description.at(2).text());
    }
}

#[test]
fn timesheet_test_parse_tag_with_space() {
    let entries = parse_entry(
        "2022-01-01\n20:00 @foobar \n2022-02-02\n20:00 @barfoo\n",
        &Config::empty(),
    )
    .unwrap();
    println!("{:?}", entries);
    assert_eq!(2, entries.entries.len());
    assert_eq!(
        "barfoo".to_string(),
        entries.entries[1].logs[0].description.at(0).text
    );
}

#[test]
fn timesheet_test_parse_tag_with_space_and_subsequent_token() {
    let entries = parse_entry("2022-01-01\n20:00 @foobar barfoo", &Config::empty()).unwrap();
    println!("{:?}", entries);
    assert_eq!(1, entries.entries.len());
    let description = &entries.entries[0].logs[0].description;
    assert_eq!(2, description.len());
    assert_eq!("foobar ".to_string(), description.at(0).to_string());
    assert_eq!("barfoo".to_string(), description.at(1).text);
}

#[test]
fn parser_test_parse_date_digits() {
    {
        let (value, next) = date_digits_i32(&chars_of("2022"), 0).unwrap();
        assert_eq!(("".to_string(), 2022), (rest_of("2022", next), value));
    }
    {
        let (value, next) = date_digits_i32(&chars_of("2022-10"), 0).unwrap();
        assert_eq!(("-10".to_string(), 2022), (rest_of("2022-10", next), value));
    }
}

#[test]
fn parser_test_parse_date() {
    let (date, _) = date(&chars_of("2022-01-02"), 0).unwrap();
    assert_eq!(2022, date.year());
    assert_eq!(01, date.month());
    assert_eq!(02, date.day());
}

#[test]
fn parser_test_parse_date_invalid() {
    date(&chars_of("2022 -01-02"), 0).unwrap_err();
}

#[test]
fn parser_test_parse_log() {
    {
        let (entry, _) = log(&chars_of("10:00 Working on foo"), 0, &Config::empty()).unwrap();
        assert_eq!("Working on foo".to_string(), entry.description.to_string());
    }

    {
        let (entry, _) = log(&chars_of("09:00    Working on foo"), 0, &Config::empty()).unwrap();
        assert_eq!("Working on foo".to_string(), entry.description.to_string());
    }
}

#[test]
fn parser_test_parse_entry() {
    {
        let (entry, _) =
            entry(&chars_of("2022-01-01\n10:00 Working on foo"), 0, &Config::empty()).unwrap();
        assert_eq!("2022-01-01".to_string(), entry.date.to_string());
        assert_eq!(
            "Working on foo".to_string(),
            entry.logs[0].description.to_string()
        );
    }

    {
        let (entry, _) =
            entry(&chars_of("2022-01-01\n\n10:00 Working on foo"), 0, &Config::empty()).unwrap();
        assert_eq!("2022-01-01", entry.date.to_string());
        assert_eq!(
            "Working on foo".to_string(),
            entry.logs[0].description.to_string()
        );
    }

    {
        let (entry, _) = entry(
            &chars_of("2022-01-01\n\n10:00 Working on foo\n11:00 Working on bar"),
            0,
            &Config::empty(),
        )
        .unwrap();
        assert_eq!("2022-01-01", entry.date.to_string());
        assert_eq!(
            "Working on foo".to_string(),
            entry.logs[0].description.to_string()
        );
        assert_eq!(
            "Working on bar".to_string(),
            entry.logs[1].description.to_string()
        );
    }
}

#[test]
fn parser_test_parse_entries() {
    {
        let entries = parse_entry(
            "2022-01-01\n10:00 Working on foo\n2022-02-02\n11:00 Foo",
            &Config::empty(),
        )
        .unwrap();
        assert_eq!(2, entries.entries.len());
        assert_eq!(
            "2022-01-01".to_string(),
            entries.entries[0].date.to_string()
        );
        assert_eq!(
            "2022-02-02".to_string(),
            entries.entries[1].date.to_string()
        );
    }
    {
        let entries = parse_entry(
            "2022-01-01\n\n\n10:00 Working on foo\n\n\n2022-02-02\n11:00 Foo",
            &Config::empty(),
        )
        .unwrap();
        assert_eq!(
            "2022-01-01".to_string(),
            entries.entries[0].date.to_string()
        );
        assert_eq!(
            "2022-02-02".to_string(),
            entries.entries[1].date.to_string()
        );
    }

    {
        let entries = parse_entry(
            "\n\n2022-01-01\n10:00 Working on foo\n2022-02-02\n11:00 Foo",
            &Config::empty(),
        )
        .unwrap();
        assert_eq!(
            "2022-01-01".to_string(),
            entries.entries[0].date.to_string()
        );
    }
}

#[test]
fn parser_test_sorts_entries_by_date_asc() {
    {
        let entries = parse_entry("2022-01-01\n2021-01-01\n", &Config::empty()).unwrap();
        assert_eq!(2, entries.entries.len());
        assert_eq!(
            "2021-01-01".to_string(),
            entries.entries[0].date.to_string()
        );
        assert_eq!(
            "2022-01-01".to_string(),
            entries.entries[1].date.to_string()
        );
    }
    {
        let entries = parse_entry("2022-01-31\n2022-02-01\n", &Config::empty()).unwrap();
        assert_eq!(2, entries.entries.len());
        assert_eq!(
            "2022-01-31".to_string(),
            entries.entries[0].date.to_string()
        );
        assert_eq!(
            "2022-02-01".to_string(),
            entries.entries[1].date.to_string()
        );
    }
}

#[test]
fn parser_test_parses_time_range() {
    {
        let entries = parse_entry("2022-01-01\n20:00-21:00", &Config::empty()).unwrap();
        assert_eq!(1, entries.entries.len());
        assert_eq!(
            "20:00-21:00".to_string(),
            entries.entries[0].logs[0].time.to_string()
        );
    }
}

#[test]
fn parser_test_parse_tag() {
    {
        let entries =
            parse_entry("2022-01-01\n20:00-21:00 Foobar @foobar", &Config::empty()).unwrap();
        assert_eq!(1, entries.entries.len());
        assert_eq!(
            "Foobar ".to_string(),
            entries.entries[0].logs[0].description.first().to_string()
        );
        assert_eq!(
            "foobar".to_string(),
            entries.entries[0].logs[0].description.at(1).text
        );
        assert_eq!(
            TokenKind::Tag,
            entries.entries[0].logs[0].description.at(1).kind
        );
    }
    {
        let entries = parse_entry(
            "2022-01-01\n20:00-21:00 Foobar @foobar barfoo",
            &Config::empty(),
        )
        .unwrap();
        assert_eq!(1, entries.entries.len());
        assert_eq!(
            "foobar".to_string(),
            entries.entries[0].logs[0].description.at(1).text
        );
        assert_eq!(
            TokenKind::Tag,
            entries.entries[0].logs[0].description.at(1).kind
        );

        assert_eq!(
            "barfoo".to_string(),
            entries.entries[0].logs[0].description.at(2).text
        );
    }
}

#[test]
fn parser_test_parse_tag_with_space() {
    let entries = parse_entry(
        "2022-01-01\n20:00 @foobar \n2022-02-02\n20:00 @barfoo\n",
        &Config::empty(),
    )
    .unwrap();
    println!("{:?}", entries);
    assert_eq!(2, entries.entries.len());
    assert_eq!(
        "barfoo".to_string(),
        entries.entries[1].logs[0].description.at(0).text
    );
}

#[test]
fn parser_test_parse_tag_with_space_and_subsequent_token() {
    let entries = parse_entry("2022-01-01\n20:00 @foobar barfoo", &Config::empty()).unwrap();
    println!("{:?}", entries);
    assert_eq!(1, entries.entries.len());
    let description = &entries.entries[0].logs[0].description;
    assert_eq!(2, description.len());
    assert_eq!("foobar ".to_string(), description.at(0).to_string());
    assert_eq!("barfoo".to_string(), description.at(1).text);
}
