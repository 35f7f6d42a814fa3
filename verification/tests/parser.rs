use org_parser::Options;
use org_parser::Parser;
use org_parser::SEQ_STATES;

#[test]
fn test_count_level() {
    assert_eq!(Parser::count_level("*** H3 Heading"), 3);
    assert_eq!(Parser::count_level("** H2 Heading"), 2);
    assert_eq!(Parser::count_level("* H1 Heading"), 1);
    assert_eq!(Parser::count_level("*** H3 Heading"), 3);
}

#[test]
fn test_parse_options_simple() {
    let options = "#+TODO: TODO(t) | DONE(d)".to_string();
    let todo = SEQ_STATES::TODO(vec!["TODO".to_string()]);
    let done = SEQ_STATES::DONE(vec!["DONE".to_string()]);

    let output = Parser::parse_options(&options).unwrap();
    assert_eq!(output, [Options::SEQ_TODO(vec![todo, done])]);
}

#[test]
fn test_parse_options_complex() {
    let options = "#+TODO: TODO(t) CRITICAL(c) NOT_DONE(n) | COMPLETED(e) DONE(d)".to_string();
    let todo = SEQ_STATES::TODO(vec![
        "TODO".to_string(),
        "CRITICAL".to_string(),
        "NOT_DONE".to_string(),
    ]);
    let done = SEQ_STATES::DONE(vec!["COMPLETED".to_string(), "DONE".to_string()]);

    let output = Parser::parse_options(&options).unwrap();
    assert_eq!(output, [Options::SEQ_TODO(vec![todo, done])]);
}

#[test]
fn test_parse_title() {
    let title = "* Header";
    assert_eq!("Header", Parser::parse_title(title, 1, &None));

    let title = "*** Some title";
    assert_eq!("Some title", Parser::parse_title(title, 3, &None));

    let title = "** CUSTOM_TODO test";
    assert_eq!(
        "test",
        Parser::parse_title(title, 2, &Some("CUSTOM_TODO".to_string()))
    );
}
