//! What is wrong with a filter, as text.

use sqlx_query::composer::filter::{FilterClause, FilterClauseError};
use sqlx_query::expression::parse;
use sqlx_query::mistake::{tell_all, Mistake};

fn own_words(source: &str) -> String {
    cel::parser::Parser::new().parse(source).unwrap_err().to_string()
}

#[test]
fn mistakes_are_told_as_the_parser_tells_them() {
    for source in [
        "a ==",
        "a == == b",
        "a &&\n  b == ==\n c",
        "a &&\r\n  b == ==\r\n c",
        "größe == 'ü",
        "1 +\n",
        "(((",
        "a.b.",
        "x == 9999999999999999999999",
        "\n\n==",
        "\r",
        "a\r ==",
    ] {
        assert_eq!(parse(source).unwrap_err(), own_words(source), "{source:?}");
    }
}

#[test]
fn a_mistake_far_to_the_right_is_told() {
    let name = "a".repeat(70_000);
    let source = format!("{name} ==");
    let message = parse(&source).unwrap_err();
    assert!(message.starts_with("ERROR: <input>:1:70004: "), "{}", &message[..60]);
    assert!(message.ends_with(&format!("\n| {source}\n| {}^", ".".repeat(70_003))));
    assert!(matches!(
        FilterClause::parse(&source),
        Err(FilterClauseError::Parse(text)) if text == message
    ));
    assert!(parse(&format!("{name} == 1")).is_ok());
}

#[test]
fn a_mistake_without_a_line_shows_none() {
    let mistake = |line, column, source: Option<&str>| Mistake {
        line,
        column,
        message: "odd".into(),
        source: source.map(str::to_owned),
    };
    let told = |mistake: Mistake| tell_all(&[mistake]);
    assert_eq!(told(mistake(0, 0, None)), "ERROR: <input>:0:0: odd");
    assert_eq!(told(mistake(0, 0, Some("a"))), "ERROR: <input>:0:0: odd");
    assert_eq!(told(mistake(-3, 2, Some("a"))), "ERROR: <input>:-3:2: odd");
    assert_eq!(told(mistake(2, 1, Some("a\n"))), "ERROR: <input>:2:1: odd");
    assert_eq!(told(mistake(1, 0, Some("a\r\n"))), "ERROR: <input>:1:0: odd\n| a\n| ^");
    assert_eq!(told(mistake(2, 3, Some("a\n\rb\r"))), "ERROR: <input>:2:3: odd\n| \rb\r\n| ..^");
    assert_eq!(
        tell_all(&[mistake(0, 0, None), mistake(0, 1, None)]),
        "ERROR: <input>:0:0: odd\nERROR: <input>:0:1: odd"
    );
}
