//! A resolved ordering handed to the writer, rather than a fragment.

use sqlx_query::columns::Columns;
use sqlx_query::driver::Postgres;
use sqlx_query::writer::error::Error;
use sqlx_query::writer::filter::Literal;
use sqlx_query::writer::query::QueryWriter;
use sqlx_query::writer::sort::Sort;

fn columns() -> Columns {
    Columns::new()
        .with("title", "title")
        .with("readCount", "read_count")
        .with("created", "v.created_at")
        .with("order", "order")
        .with("id", "id")
}

fn sorted(base: &str, order_by: &str, tiebreak: &str) -> Result<String, Error> {
    let sort = Sort::parse(order_by)?.asc(tiebreak).resolve(&columns())?;
    let mut query = QueryWriter::<Postgres>::new(base)?;
    query.sort(&sort);
    query.sql()
}

#[test]
fn a_sort_becomes_the_ordering() {
    let sql = sorted("SELECT id FROM v", "title desc", "id").unwrap();
    assert_eq!(sql, r#"SELECT id FROM v ORDER BY "title" DESC, "id" ASC"#);
}

/// A qualified column is two identifiers, not one with a dot in it.
#[test]
fn writer_a_qualified_column_is_quoted_in_parts() {
    let sql = sorted("SELECT id FROM v", "created", "id").unwrap();
    assert_eq!(
        sql,
        r#"SELECT id FROM v ORDER BY "v"."created_at" ASC, "id" ASC"#
    );
}

/// Why columns are quoted at all.
#[test]
fn a_column_named_after_a_keyword_survives() {
    let sql = sorted("SELECT id FROM v", "order", "id").unwrap();
    assert_eq!(sql, r#"SELECT id FROM v ORDER BY "order" ASC, "id" ASC"#);
}

/// What the query already ordered by drops behind the request's
/// ordering, exactly as a `sort` fragment does.
#[test]
fn the_querys_own_ordering_becomes_a_tiebreaker() {
    let sql = sorted("SELECT id FROM v ORDER BY rank", "title desc", "id").unwrap();
    assert_eq!(
        sql,
        r#"SELECT id FROM v ORDER BY "title" DESC, "id" ASC, rank"#
    );
}

/// Quoting is not part of a column's identity: the `"id"` a `Sort`
/// writes and the `id` the query wrote are one column, and it is
/// ordered by once.
#[test]
fn quoting_does_not_make_a_second_column() {
    let sql = sorted("SELECT id FROM v ORDER BY id", "title desc", "id").unwrap();
    assert_eq!(sql, r#"SELECT id FROM v ORDER BY "title" DESC, "id" ASC"#);
}

/// Every string shape reaches the same impl, including the owned one
/// a deserialised request actually hands you.
#[test]
fn a_fragment_may_be_any_kind_of_string() {
    let owned = String::from("name asc");

    for sql in [
        QueryWriter::<Postgres>::new("SELECT id FROM v")
            .unwrap()
            .sort("name asc")
            .sql(),
        QueryWriter::<Postgres>::new("SELECT id FROM v")
            .unwrap()
            .sort(&owned)
            .sql(),
        QueryWriter::<Postgres>::new("SELECT id FROM v")
            .unwrap()
            .sort(owned.clone())
            .sql(),
    ] {
        assert_eq!(sql.unwrap(), "SELECT id FROM v ORDER BY name ASC");
    }
}

/// What a fragment can do that a `Sort` cannot: order by an
/// expression. `Sort` only ever names columns, so this is the reason
/// the two are not the same type.
#[test]
fn a_fragment_may_order_by_an_expression() {
    let mut writer = QueryWriter::<Postgres>::new("SELECT id FROM v").unwrap();
    writer.sort("lower(name) asc, id desc");

    assert_eq!(
        writer.sql().unwrap(),
        "SELECT id FROM v ORDER BY lower(name) ASC, id DESC"
    );
}

/// A fragment and a `Sort` in the same query, the fragment first.
#[test]
fn a_fragment_and_a_sort_may_both_be_given() {
    let sort = Sort::parse("title").unwrap().resolve(&columns()).unwrap();
    let mut writer = QueryWriter::<Postgres>::new("SELECT id FROM v").unwrap();
    writer.sort("lower(name) asc").sort(&sort);

    assert_eq!(
        writer.sql().unwrap(),
        r#"SELECT id FROM v ORDER BY lower(name) ASC, "title" ASC"#
    );
}

/// The check that makes the allowlist worth having: a sort still
/// holding the client's field names never reaches the query.
#[test]
fn an_unresolved_sort_is_refused() {
    let sort = Sort::parse("title desc").unwrap();
    let mut query = QueryWriter::<Postgres>::new("SELECT id FROM v").unwrap();
    query.sort(&sort);

    assert!(matches!(query.sql(), Err(Error::Unresolved)));
}

#[test]
fn an_empty_sort_leaves_the_query_alone() {
    let sql = Sort::parse("")
        .and_then(|sort| sort.resolve(&columns()))
        .and_then(|sort| {
            let mut query = QueryWriter::<Postgres>::new("SELECT id FROM v")?;
            query.sort(&sort);
            query.sql()
        })
        .unwrap();

    assert_eq!(sql, "SELECT id FROM v");
}

#[test]
fn binds_and_limits_reach_the_writer() {
    let sort = Sort::parse("title").unwrap().resolve(&columns()).unwrap();
    let mut query =
        QueryWriter::<Postgres>::new("SELECT id FROM v WHERE tenant = $1").unwrap();
    query.bind(Literal::Int(7)).sort(&sort).limit(50);

    assert_eq!(
        query.sql().unwrap(),
        r#"SELECT id FROM v WHERE tenant = $1 ORDER BY "title" ASC LIMIT 50"#
    );
    assert!(query.build().is_ok());
}

/// A predicate this program decided, alongside an ordering the client
/// did -- the case that used to need an escape hatch between layers.
#[test]
fn a_fragment_and_a_sort_sit_side_by_side() {
    let sort = Sort::parse("title").unwrap().resolve(&columns()).unwrap();
    let mut query = QueryWriter::<Postgres>::new("SELECT id FROM v").unwrap();
    query.sort(&sort);
    query.filter("visible");

    assert_eq!(
        query.sql().unwrap(),
        r#"SELECT id FROM v WHERE visible ORDER BY "title" ASC"#
    );
}
