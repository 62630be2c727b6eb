//! What a writer binds, in which order, and what it says when it refuses.

use sqlx_query::columns::Columns;
use sqlx_query::driver::{MySql, Postgres, Sqlite};
use sqlx_query::writer::error::Error;
use sqlx_query::writer::filter::{Filter, Literal};
use sqlx_query::writer::query::{Bind, QueryWriter};
use sqlx_query::writer::sort::Sort;

fn columns() -> Columns {
    Columns::new()
        .with("title", "title")
        .with("created", "v.created_at")
        .with("score", "score")
        .with("n", "n")
}

fn whole(n: i64) -> Bind {
    Bind::Literal(Literal::Int(n))
}

fn text(s: &str) -> Bind {
    Bind::Literal(Literal::Text(s.to_string()))
}

/// What a filter binds, in a query that binds nothing else.
fn bound(cel: &str) -> Vec<Bind> {
    let filter = Filter::parse(cel).unwrap().resolve(&columns()).unwrap();
    let mut writer = QueryWriter::<Postgres>::new("SELECT id FROM v").unwrap();
    writer.filter(&filter);
    writer.build().unwrap().1
}

fn refusal(cel: &str) -> String {
    Filter::parse(cel).unwrap_err().message()
}

#[test]
fn a_bare_placeholder_is_bound_where_it_stands() {
    let mut writer =
        QueryWriter::<MySql>::new("SELECT id FROM users WHERE tenant_id = ? LIMIT ?").unwrap();
    writer
        .bind(Literal::Int(1))
        .bind(Literal::Int(2))
        .filter("role = ?")
        .bind(Literal::Text("admin".to_string()));

    let (sql, binds) = writer.build().unwrap();
    assert_eq!(
        sql,
        "SELECT id FROM users WHERE tenant_id = ? AND role = ? LIMIT ?"
    );
    assert_eq!(binds, [whole(1), text("admin"), whole(2)]);
    assert_eq!(writer.render().unwrap().1, [0, 2, 1]);
}

#[test]
fn a_named_placeholder_keeps_the_order_of_binding() {
    let mut writer =
        QueryWriter::<Sqlite>::new("SELECT id FROM users WHERE tenant_id = ? LIMIT ?").unwrap();
    writer
        .bind(Literal::Int(1))
        .bind_opaque(7)
        .filter("role = ?")
        .bind(Literal::Text("admin".to_string()));

    let (sql, binds) = writer.build().unwrap();
    assert_eq!(
        sql,
        "SELECT id FROM users WHERE tenant_id = ?1 AND role = ?3 LIMIT ?2"
    );
    assert_eq!(binds, [whole(1), Bind::Opaque(7), text("admin")]);
}

#[test]
fn the_driver_quotes_its_own_way() {
    let sort = Sort::parse("created desc").unwrap().resolve(&columns()).unwrap();
    let mut writer = QueryWriter::<MySql>::new("SELECT id FROM v").unwrap();
    writer.sort(&sort);
    assert_eq!(
        writer.sql().unwrap(),
        "SELECT id FROM v ORDER BY `v`.`created_at` DESC"
    );
}

#[test]
fn a_wildcard_is_bound_escaped() {
    assert_eq!(bound(r#"title.startsWith("50%")"#), [text("50!%%")]);
    assert_eq!(bound(r#"title.contains("a_b")"#), [text("%a!_b%")]);
    assert_eq!(bound(r#"title.endsWith("!")"#), [text("%!!")]);
}

#[test]
fn each_kind_of_value_is_bound_as_itself() {
    assert_eq!(bound("n == 3"), [whole(3)]);
    assert_eq!(bound("n == 3u"), [whole(3)]);
    assert_eq!(
        bound("score > 1.5"),
        [Bind::Literal(Literal::Float(1.5f64.to_bits()))]
    );
    assert_eq!(bound("n == true"), [Bind::Literal(Literal::Bool(true))]);
    assert_eq!(
        bound(r#"created >= timestamp("2026-07-01T00:00:00.5Z")"#),
        [Bind::Literal(Literal::Timestamp { seconds: 1_782_864_000, nanos: 500_000_000 })]
    );
    assert_eq!(bound("n in [1, 2] && title == \"a\""), [whole(1), whole(2), text("a")]);
}

#[test]
fn a_query_is_opened_with_or_without_a_filter() {
    assert!(QueryWriter::<Postgres>::open("SELECT 1").unwrap().is_some());
    assert_eq!(
        QueryWriter::<Postgres>::open("SELECT 1; SELECT 2").err(),
        Some(Error::NotQuery)
    );
}

#[test]
fn filters_say_why_they_are_refused() {
    assert_eq!(
        refusal("n + 1 > 2"),
        "the filter did not parse: a comparison is a field and a value, as in `readCount > 100`"
    );
    assert_eq!(
        refusal("n < null"),
        "the filter did not parse: `n` can only be compared to null with `==` or `!=`"
    );
    assert_eq!(
        refusal("created > timestamp(\"x\", \"y\")"),
        "the filter did not parse: `timestamp()` takes one string, as in \
         `timestamp(\"2024-01-01T00:00:00Z\")`"
    );
    assert_eq!(
        refusal("created > timestamp(1)"),
        "the filter did not parse: `timestamp()` takes a string, not an expression"
    );
    assert_eq!(
        refusal("n > 9223372036854775808u"),
        "the filter did not parse: `9223372036854775808` is too large to compare against"
    );
}

#[test]
fn each_error_says_what_happened() {
    let messages = [
        (
            Error::Fragment { fragment: "a".to_string(), source: "b".to_string() },
            "the fragment `a` did not parse: b",
        ),
        (
            Error::Trailing { fragment: "a".to_string(), rest: "b".to_string() },
            "the fragment `a` is an expression followed by `b`; a fragment has to be one \
             complete expression and nothing else",
        ),
        (Error::Query("a".to_string()), "the query did not parse: a"),
        (
            Error::NotQuery,
            "the SQL is not a query, so it has no WHERE to add to",
        ),
        (Error::Encode("a".to_string()), "a bound value could not be encoded: a"),
        (Error::Sort("a".to_string()), "the ordering did not parse: a"),
        (
            Error::Arity { wanted: 2, given: 1 },
            "the statement has 2 placeholders but 1 values were bound; values are given in the \
             order the placeholders claim them, the base query's first and then each fragment's",
        ),
    ];
    for (error, message) in messages {
        assert_eq!(error.message(), message);
    }
    assert!(Error::Field("a".to_string()).message().starts_with("`a` is not a field"));
    assert!(Error::Unresolved.message().contains("call `Sort::resolve`"));
    assert!(Error::SetOperation.message().contains("set operation"));
    assert!(Error::Grouped.message().contains("GROUP BY"));
    assert!(Error::Orphaned.message().contains("no placeholder to bind to"));
    assert!(Error::Positional.message().contains("bind it twice"));
}

#[test]
fn a_rewrite_leaves_the_rest_alone() {
    let base = "WITH w AS (SELECT 1 AS a) SELECT a FROM w WHERE a > 0 ORDER BY a LIMIT 5";
    let writer = QueryWriter::<Postgres>::new(base).unwrap();
    assert_eq!(writer.sql().unwrap(), base);
}
