use termstyle::parser::{Argument, ArgumentParser, ParseError};

fn flag(name: &str, short: Option<&str>, long: &str) -> Argument {
    Argument {
        name: name.to_string(),
        short: short.map(|s| s.to_string()),
        long: long.to_string(),
        help: String::new(),
        takes_value: false,
    }
}

fn value(name: &str, short: Option<&str>, long: &str) -> Argument {
    Argument {
        name: name.to_string(),
        short: short.map(|s| s.to_string()),
        long: long.to_string(),
        help: String::new(),
        takes_value: true,
    }
}

fn verbose_and_name() -> ArgumentParser {
    let mut parser = ArgumentParser::new();
    parser.add_argument(flag("verbose", Some("-v"), "--verbose"));
    parser.add_argument(value("name", Some("-n"), "--name"));
    parser
}

fn tokens(list: &[&str]) -> Vec<String> {
    list.iter().map(|s| s.to_string()).collect()
}

#[test]
fn value_and_flag_are_both_recorded() {
    let parser = verbose_and_name();
    let result = parser.parse(&tokens(&["prog", "--name", "alice", "--verbose"])).unwrap();
    assert_eq!(result.get_value("name"), Some("alice"));
    assert!(result.has_flag("verbose"));
    assert!(!result.has_flag("name"));
    assert_eq!(result.get_value("verbose"), None);
}

#[test]
fn value_taking_argument_at_the_end_is_missing_its_value() {
    let parser = verbose_and_name();
    match parser.parse(&tokens(&["prog", "--name"])) {
        Err(ParseError::MissingValue(long)) => assert_eq!(long, "--name"),
        other => panic!("unexpected: {:?}", other.map(|_| ())),
    }
}

#[test]
fn missing_value_without_short_forms_names_the_long_form() {
    let mut parser = ArgumentParser::new();
    parser.add_argument(flag("verbose", None, "--verbose"));
    parser.add_argument(value("name", None, "--name"));
    match parser.parse(&tokens(&["prog", "--name"])) {
        Err(ParseError::MissingValue(long)) => assert_eq!(long, "--name"),
        other => panic!("unexpected: {:?}", other.map(|_| ())),
    }
}

#[test]
fn missing_value_names_the_long_form_when_the_short_form_was_typed() {
    let parser = verbose_and_name();
    match parser.parse(&tokens(&["prog", "-v", "-n"])) {
        Err(ParseError::MissingValue(long)) => assert_eq!(long, "--name"),
        other => panic!("unexpected: {:?}", other.map(|_| ())),
    }
}

#[test]
fn missing_value_discards_what_was_found_before() {
    let parser = verbose_and_name();
    let result = parser.parse(&tokens(&["prog", "--verbose", "--name", "alice", "--name"]));
    assert!(matches!(result, Err(ParseError::MissingValue(_))));
}

#[test]
fn unknown_token_is_reported() {
    let parser = verbose_and_name();
    match parser.parse(&tokens(&["prog", "--bogus"])) {
        Err(ParseError::UnknownArgument(token)) => assert_eq!(token, "--bogus"),
        other => panic!("unexpected: {:?}", other.map(|_| ())),
    }
}

#[test]
fn first_error_stops_the_scan() {
    let parser = verbose_and_name();
    match parser.parse(&tokens(&["prog", "--verbose", "stray", "--name"])) {
        Err(ParseError::UnknownArgument(token)) => assert_eq!(token, "stray"),
        other => panic!("unexpected: {:?}", other.map(|_| ())),
    }
    match parser.parse(&tokens(&["prog", "--bogus", "--worse"])) {
        Err(ParseError::UnknownArgument(token)) => assert_eq!(token, "--bogus"),
        other => panic!("unexpected: {:?}", other.map(|_| ())),
    }
}

#[test]
fn program_name_is_passed_over() {
    let parser = verbose_and_name();
    let result = parser.parse(&tokens(&["--verbose"])).unwrap();
    assert!(!result.has_flag("verbose"));
    let result = parser.parse(&tokens(&["--bogus"])).unwrap();
    assert_eq!(result.get_value("name"), None);
    let result = parser.parse(&tokens(&[])).unwrap();
    assert!(!result.has_flag("verbose"));
    assert_eq!(result.get_value("name"), None);
}

#[test]
fn short_forms_select_too() {
    let parser = verbose_and_name();
    let result = parser.parse(&tokens(&["prog", "-v", "-n", "bob"])).unwrap();
    assert!(result.has_flag("verbose"));
    assert_eq!(result.get_value("name"), Some("bob"));
}

#[test]
fn argument_without_short_form_is_selected_by_long_only() {
    let mut parser = ArgumentParser::new();
    parser.add_argument(flag("quiet", None, "--quiet"));
    assert!(parser.parse(&tokens(&["prog", "--quiet"])).unwrap().has_flag("quiet"));
    match parser.parse(&tokens(&["prog", "-q"])) {
        Err(ParseError::UnknownArgument(token)) => assert_eq!(token, "-q"),
        other => panic!("unexpected: {:?}", other.map(|_| ())),
    }
}

#[test]
fn later_value_overwrites_earlier() {
    let parser = verbose_and_name();
    let result = parser.parse(&tokens(&["prog", "--name", "alice", "-n", "bob"])).unwrap();
    assert_eq!(result.get_value("name"), Some("bob"));
}

#[test]
fn repeated_flag_is_recorded_once() {
    let parser = verbose_and_name();
    let once = parser.parse(&tokens(&["prog", "--verbose"])).unwrap();
    let twice = parser.parse(&tokens(&["prog", "--verbose", "-v"])).unwrap();
    assert!(once.has_flag("verbose"));
    assert!(twice.has_flag("verbose"));
}

#[test]
fn value_is_taken_even_if_it_looks_like_a_flag() {
    let parser = verbose_and_name();
    let result = parser.parse(&tokens(&["prog", "--name", "--verbose"])).unwrap();
    assert_eq!(result.get_value("name"), Some("--verbose"));
    assert!(!result.has_flag("verbose"));
    let result = parser.parse(&tokens(&["prog", "--name", "--bogus", "-v"])).unwrap();
    assert_eq!(result.get_value("name"), Some("--bogus"));
    assert!(result.has_flag("verbose"));
}

#[test]
fn first_registered_argument_wins() {
    let mut parser = ArgumentParser::new();
    parser.add_argument(value("first", None, "--x"));
    parser.add_argument(flag("second", Some("--x"), "--second"));
    let result = parser.parse(&tokens(&["prog", "--x", "v"])).unwrap();
    assert_eq!(result.get_value("first"), Some("v"));
    assert!(!result.has_flag("second"));
}

#[test]
fn parser_without_arguments_accepts_only_the_program_name() {
    let parser = ArgumentParser::new();
    assert!(parser.parse(&tokens(&["prog"])).is_ok());
    match parser.parse(&tokens(&["prog", "x"])) {
        Err(ParseError::UnknownArgument(token)) => assert_eq!(token, "x"),
        other => panic!("unexpected: {:?}", other.map(|_| ())),
    }
}

#[test]
fn equals_syntax_is_not_understood() {
    let parser = verbose_and_name();
    match parser.parse(&tokens(&["prog", "--name=alice"])) {
        Err(ParseError::UnknownArgument(token)) => assert_eq!(token, "--name=alice"),
        other => panic!("unexpected: {:?}", other.map(|_| ())),
    }
}
