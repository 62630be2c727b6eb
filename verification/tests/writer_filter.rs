//! Filters that a request asks for.

use sqlx_query::columns::Columns;
use sqlx_query::driver::Postgres;
use sqlx_query::writer::error::Error;
use sqlx_query::writer::filter::{Filter, Literal};
use sqlx_query::writer::query::QueryWriter;

fn columns() -> Columns {
    Columns::new()
        .with("readCount", "read_count")
        .with("title", "title")
        .with("visible", "visible")
        .with("tier", "t.tier")
}

/// The condition alone, which is all these are about.
fn filtered(cel: &str) -> Result<String, Error> {
    let filter = Filter::parse(cel)?.resolve(&columns())?;
    let mut writer = QueryWriter::<Postgres>::new("SELECT id FROM v")?;
    writer.filter(&filter);

    Ok(writer
        .sql()?
        .trim_start_matches("SELECT id FROM v")
        .trim_start()
        .trim_start_matches("WHERE ")
        .to_owned())
}

#[test]
fn comparisons_become_the_operators_they_name() {
    for (cel, sql) in [
        ("readCount == 1", r#""read_count" = $1"#),
        ("readCount != 1", r#""read_count" <> $1"#),
        ("readCount < 1", r#""read_count" < $1"#),
        ("readCount <= 1", r#""read_count" <= $1"#),
        ("readCount > 1", r#""read_count" > $1"#),
        ("readCount >= 1", r#""read_count" >= $1"#),
    ] {
        assert_eq!(filtered(cel).unwrap(), sql, "{cel}");
    }
}

/// `100 < readCount` says the same as `readCount > 100`, and a request
/// may write it either way round.
#[test]
fn a_comparison_reads_in_either_order() {
    assert_eq!(filtered("100 < readCount").unwrap(), r#""read_count" < $1"#);
}

#[test]
fn a_bare_field_is_the_column_itself() {
    assert_eq!(filtered("visible").unwrap(), r#""visible""#);
}

#[test]
fn a_qualified_column_is_quoted_in_parts() {
    assert_eq!(filtered(r#"tier == "gold""#).unwrap(), r#""t"."tier" = $1"#);
}

/// Nothing equals null in SQL, including null, so the obvious
/// reading would match nothing at all.
#[test]
fn comparing_to_null_becomes_is_null() {
    assert_eq!(
        filtered("readCount == null").unwrap(),
        r#""read_count" IS NULL"#
    );
    assert_eq!(
        filtered("readCount != null").unwrap(),
        r#""read_count" IS NOT NULL"#
    );
}

#[test]
fn a_list_becomes_in() {
    assert_eq!(
        filtered("readCount in [1, 2, 3]").unwrap(),
        r#""read_count" IN ($1, $2, $3)"#
    );
}

#[test]
fn the_string_methods_become_like() {
    for cel in [
        r#"title.startsWith("D")"#,
        r#"title.endsWith("D")"#,
        r#"title.contains("D")"#,
    ] {
        assert_eq!(
            filtered(cel).unwrap(),
            r#""title" LIKE $1 ESCAPE '!'"#,
            "{cel}"
        );
    }
}

/// Only an `OR` under an `AND` needs parentheses; anything else would
/// be noise in SQL someone has to read.
#[test]
fn parentheses_appear_only_where_precedence_needs_them() {
    assert_eq!(
        filtered("readCount > 1 && visible").unwrap(),
        r#""read_count" > $1 AND "visible""#
    );
    // On its own an `OR` is the whole clause, so it needs nothing.
    assert_eq!(
        filtered("readCount > 1 || visible").unwrap(),
        r#""read_count" > $1 OR "visible""#
    );
    assert_eq!(
        filtered(r#"readCount > 1 && (title == "a" || title == "b")"#).unwrap(),
        r#""read_count" > $1 AND ("title" = $2 OR "title" = $3)"#
    );
}

/// But joined onto a condition the query already had, it does -- `AND`
/// binds tighter, and without them the query would mean something else.
#[test]
fn an_or_is_parenthesised_when_it_joins_an_existing_where() {
    let filter = Filter::parse("readCount > 1 || visible")
        .unwrap()
        .resolve(&columns())
        .unwrap();
    let mut writer =
        QueryWriter::<Postgres>::new("SELECT id FROM v WHERE tenant = $1").unwrap();
    writer.bind(Literal::Int(7)).filter(&filter);

    assert_eq!(
        writer.sql().unwrap(),
        r#"SELECT id FROM v WHERE tenant = $1 AND ("read_count" > $2 OR "visible")"#
    );
}

#[test]
fn not_wraps_only_a_joined_condition() {
    assert_eq!(filtered("!visible").unwrap(), r#"NOT "visible""#);
    assert_eq!(
        filtered("!(visible && readCount > 1)").unwrap(),
        r#"NOT ("visible" AND "read_count" > $1)"#
    );
}

/// An absent filter adds no condition, rather than a `TRUE` for the
/// planner to discard and a reader to wonder about.
#[test]
fn a_blank_filter_adds_nothing() {
    let filter = Filter::parse("").unwrap().resolve(&columns()).unwrap();
    let mut writer = QueryWriter::<Postgres>::new("SELECT id FROM v").unwrap();
    writer.filter(&filter);

    assert!(filter.is_empty());
    assert_eq!(writer.sql().unwrap(), "SELECT id FROM v");
}

/// A filter's placeholders continue from whatever the query already
/// claimed, like any other fragment's.
#[test]
fn values_are_numbered_after_the_querys_own() {
    let filter = Filter::parse("readCount > 1 && title == \"a\"")
        .unwrap()
        .resolve(&columns())
        .unwrap();
    let mut writer =
        QueryWriter::<Postgres>::new("SELECT id FROM v WHERE tenant = $1").unwrap();
    writer.bind(Literal::Int(7)).filter(&filter);

    assert_eq!(
        writer.sql().unwrap(),
        r#"SELECT id FROM v WHERE tenant = $1 AND "read_count" > $2 AND "title" = $3"#
    );
}

/// The reason the allowlist exists: a request cannot filter on a
/// column the query did not offer.
#[test]
fn a_field_the_map_does_not_name_is_refused() {
    let error = Filter::parse(r#"password_hash == "x""#)
        .unwrap()
        .resolve(&columns())
        .unwrap_err();

    assert!(
        matches!(&error, Error::Field(field) if field == "password_hash"),
        "{error:?}"
    );
}

#[test]
fn an_unresolved_filter_never_reaches_the_query() {
    let filter = Filter::parse("visible").unwrap();
    let mut writer = QueryWriter::<Postgres>::new("SELECT id FROM v").unwrap();
    writer.filter(&filter);

    assert!(matches!(writer.sql(), Err(Error::Unresolved)));
}

#[test]
fn what_has_no_meaning_as_a_condition_is_refused() {
    for cel in [
        "readCount + 1 > 2",          // arithmetic
        "1 == 1",                     // two literals
        "readCount",                  // fine, but see below
        r#"readCount.matches("^D")"#, // regex, which is dialect-specific
        "readCount in []",            // matches nothing
        "[1, 2]",                     // not a condition at all
    ] {
        if cel == "readCount" {
            continue;
        }
        assert!(
            matches!(filtered(cel), Err(Error::Filter(_) | Error::Field(_))),
            "{cel} was accepted"
        );
    }
}

#[test]
fn cel_that_does_not_parse_is_refused() {
    let error = Filter::parse("readCount >").unwrap_err();
    assert!(matches!(error, Error::Filter(_)), "{error:?}");
}

#[test]
fn copied_filters_are_the_same() {
    let filter =
        Filter::parse("a == 1 && (!b || c in ['x', 'y']) && d.contains('z') && e != null").unwrap();
    assert_eq!(filter.clone(), filter);
}
