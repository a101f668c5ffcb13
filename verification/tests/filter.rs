use pttlogger::config::{Config, Project};
use pttlogger::parser::filter::{parse_filter, Filter};

fn one_project() -> Config {
    Config {
        projects: vec![Project {
            name: "myproject".to_string(),
            ticket_prefix: "PROJECT-".to_string(),
            tags: vec![],
        }],
    }
}

#[test]
fn filter_test_parse_tag() {
    let parsed = parse_filter("@foobar", &Config::empty()).unwrap();
    assert_eq!(1, parsed.criterias.len());
    assert_eq!("Tag(foobar)", parsed.criterias[0].to_string())
}

#[test]
fn filter_test_parse_ticket() {
    let config = one_project();
    let parsed = parse_filter("PROJECT-123", &config).unwrap();
    assert_eq!(1, parsed.criterias.len());
    assert_eq!("Ticket(PROJECT-123)", parsed.criterias[0].to_string())
}

#[test]
fn test_parse_many_tags() {
    let parsed = parse_filter("@foobar NOT @barfoo", &Config::empty()).unwrap();
    assert_eq!(2, parsed.criterias.len());
    assert_eq!("Tag(foobar) Not(Tag(barfoo))", parsed.to_string())
}

#[test]
fn test_parse_many_tags_and_tickets() {
    let config = one_project();
    let parsed = parse_filter("@foobar NOT PROJECT-5 PROJECT-12", &config).unwrap();
    assert_eq!(3, parsed.criterias.len());
    assert_eq!(
        "Tag(foobar) Not(Ticket(PROJECT-5)) Ticket(PROJECT-12)",
        parsed.to_string()
    )
}

#[test]
fn test_or() {
    let config = Config::empty();
    let parsed = parse_filter("OR @foobar OR NOT @bazboo @bag", &config).unwrap();
    assert_eq!(
        "Or(Tag(foobar), Or(Not(Tag(bazboo)), Tag(bag)))",
        parsed.to_string()
    )
}

#[test]
fn test_and() {
    let config = Config::empty();
    let parsed = parse_filter("AND @foobar AND NOT @bazboo @bag", &config).unwrap();
    assert_eq!(
        "And(Tag(foobar), And(Not(Tag(bazboo)), Tag(bag)))",
        parsed.to_string()
    )
}

fn typed(input: &str, config: &Config) -> (bool, Option<Filter>) {
    let mut line = String::new();
    let mut valid = false;
    let mut filter = None;
    for c in input.chars() {
        line.push(c);
        match parse_filter(&line, config) {
            Ok(ok) => {
                valid = true;
                filter = Some(ok);
            }
            Err(_err) => {
                valid = false;
            }
        }
    }
    (valid, filter)
}

#[test]
fn parses_input() {
    let binding = Config::empty();
    let (valid, filter) = typed("@phpactor @foobar", &binding);
    assert_eq!(true, valid);

    assert_eq!(2, filter.unwrap().criterias.len())
}

#[test]
fn parses_input_with_ticket() {
    let config = one_project();
    let (_, filter) = typed("PROJECT-123", &config);
    assert_eq!("Ticket(PROJECT-123)", filter.unwrap().to_string());
}
