use sqlx_query::driver::{MySql, Postgres};
use sqlx_query::pattern::escape_like;
use sqlx_query::template::error::Error;
use sqlx_query::template::lower::{parse, render};
use sqlx_query::template::mapping::{Column, ColumnType, QueryMapping};
use sqlx_query::template::value::{Timestamp, Value};

fn volumes() -> QueryMapping {
    QueryMapping::new()
        .key("id", ColumnType::Int)
        .column("title", ColumnType::Text)
        .column("price", ColumnType::Float)
        .column("archived", ColumnType::Bool)
        .column("publishedAt", ColumnType::Timestamp)
        .add("author.name", Column::new("author_name", ColumnType::Text))
}

fn sql(source: &str) -> String {
    render::<Postgres, _>(&parse(source).unwrap(), &volumes())
        .unwrap()
        .preview()
}

fn values(source: &str) -> Vec<Value> {
    let fragment = render::<Postgres, _>(&parse(source).unwrap(), &volumes()).unwrap();
    fragment.values().to_vec()
}

fn error(source: &str) -> Error {
    match render::<Postgres, _>(&parse(source).unwrap(), &volumes()) {
        Err(error) => error,
        Ok(_) => panic!("expected `{source}` to be refused"),
    }
}

#[test]
fn comparisons_bind_their_constant() {
    assert_eq!(sql("id > 21"), r#""id" > ?"#);
    assert_eq!(sql("title == 'Dune'"), r#""title" = ?"#);
    assert_eq!(sql("id != 3"), r#""id" <> ?"#);
}

#[test]
fn a_reversed_comparison_flips_its_operator() {
    assert_eq!(sql("21 < id"), r#""id" > ?"#);
    assert_eq!(sql("21 >= id"), r#""id" <= ?"#);
}

#[test]
fn logic_nests_with_parentheses() {
    assert_eq!(
        sql("id > 1 && (title == 'Dune' || archived)"),
        r#"("id" > ? AND ("title" = ? OR "archived"))"#
    );
    assert_eq!(sql("!archived"), r#"(NOT "archived")"#);
}

#[test]
fn null_becomes_is_null() {
    assert_eq!(sql("publishedAt == null"), r#""publishedAt" IS NULL"#);
    assert_eq!(sql("publishedAt != null"), r#""publishedAt" IS NOT NULL"#);
}

#[test]
fn has_asks_whether_a_column_is_set() {
    assert_eq!(sql("has(author.name)"), r#""author_name" IS NOT NULL"#);
}

#[test]
fn dotted_paths_resolve_through_the_schema() {
    assert_eq!(sql("author.name == 'Herbert'"), r#""author_name" = ?"#);
}

#[test]
fn the_string_functions_become_escaped_like() {
    assert_eq!(
        sql("title.startsWith('Du')"),
        r#""title" LIKE ? ESCAPE '!'"#
    );
    assert_eq!(sql("title.contains('un')"), r#""title" LIKE ? ESCAPE '!'"#);
}

#[test]
fn like_wildcards_in_the_needle_are_neutralised() {
    assert_eq!(
        values("title.startsWith('100%_x')"),
        [Value::Text("100!%!_x%".into())]
    );
}

#[test]
fn in_becomes_a_bound_list() {
    assert_eq!(sql("id in [1, 2, 3]"), r#""id" IN (?, ?, ?)"#);
}

#[test]
fn an_empty_in_list_is_false() {
    assert_eq!(sql("id in []"), "FALSE");
}

#[test]
fn timestamps_fold_into_a_bind_value() {
    assert_eq!(
        sql("publishedAt > timestamp('2024-01-01T00:00:00Z')"),
        r#""publishedAt" > ?"#
    );
}

#[test]
fn a_type_mismatch_is_rejected() {
    assert!(matches!(error("id > 'tuesday'"), Error::TypeMismatch(_)));
    assert!(matches!(error("title > 3"), Error::TypeMismatch(_)));
}

#[test]
fn an_integer_may_be_compared_against_a_float_column() {
    assert_eq!(sql("price > 10"), r#""price" > ?"#);
}

#[test]
fn an_unknown_column_is_rejected() {
    assert!(matches!(error("salary > 1"), Error::UnknownColumn(f) if f == "salary"));
}

#[test]
fn constructs_with_no_lowering_are_rejected_not_approximated() {
    for source in [
        "[1, 2].all(x, x > 1)",
        "{'a': 1}.a == 1",
        "id > 1 ? true : false",
        "id + 1 > 2",
        "1 > 0",
    ] {
        assert!(
            matches!(error(source), Error::Unsupported(_)),
            "accepted `{source}`"
        );
    }
}

#[test]
fn a_non_boolean_column_cannot_stand_alone() {
    assert!(matches!(error("title"), Error::TypeMismatch(_)));
}

#[test]
fn a_timestamp_is_the_instant_that_it_names() {
    assert_eq!(
        values("publishedAt > timestamp('2024-01-01T00:00:00Z')"),
        [Value::Timestamp(Timestamp {
            seconds: 1_704_067_200,
            nanos: 0,
        })]
    );
    assert!(matches!(
        error("publishedAt > timestamp('yesterday')"),
        Error::Parse(_)
    ));
}

#[test]
fn a_driver_quotes_in_its_own_way() {
    let fragment = render::<MySql, _>(&parse("id == 3").unwrap(), &volumes()).unwrap();
    assert_eq!(fragment.preview(), "`id` = ?");
}

#[test]
fn a_source_that_is_no_expression_is_refused() {
    assert!(matches!(parse("id >"), Err(Error::Parse(_))));
}

#[test]
fn escaping_doubles_nothing_but_wildcards() {
    assert_eq!(escape_like("50%_off!"), "50!%!_off!!");
    assert_eq!(escape_like("plain\\"), "plain\\");
}
