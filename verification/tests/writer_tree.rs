//! What the rewrite does to the tree.

use sqlx_query::driver::{Postgres};
use sqlx_query::writer::error::Error;
use sqlx_query::writer::query::QueryWriter;
use sqlx_query::writer::syntax::Syntax;

fn rewrite<DB: Syntax>(
    sql: &str,
    apply: impl FnOnce(&mut QueryWriter<DB>),
) -> Result<String, Error> {
    let mut writer = QueryWriter::<DB>::new(sql)?;
    apply(&mut writer);
    writer.sql()
}

#[test]
fn writer_filter_becomes_the_where_when_there_is_none() {
    let sql = rewrite::<Postgres>("SELECT id FROM users", |w| {
        w.filter("role = 'admin'");
    })
    .unwrap();

    assert_eq!(sql, "SELECT id FROM users WHERE role = 'admin'");
}

#[test]
fn writer_filter_joins_an_existing_where() {
    let sql = rewrite::<Postgres>("SELECT id FROM users WHERE tenant_id = $1", |w| {
        w.filter("role = 'admin'");
    })
    .unwrap();

    assert_eq!(
        sql,
        "SELECT id FROM users WHERE tenant_id = $1 AND role = 'admin'"
    );
}

#[test]
fn writer_filters_accumulate() {
    let sql = rewrite::<Postgres>("SELECT id FROM users", |w| {
        w.filter("role = 'admin'")
            .filter("active")
            .filter("age > 18");
    })
    .unwrap();

    assert_eq!(
        sql,
        "SELECT id FROM users WHERE role = 'admin' AND active AND age > 18"
    );
}

/// The case a text splice gets wrong. `AND` binds tighter than `OR`, so
/// appending ` AND role = 'admin'` to this `WHERE` would quietly re-associate
/// it into `a = 1 OR (b = 2 AND role = 'admin')`.
#[test]
fn writer_an_or_in_the_base_query_is_parenthesised() {
    let sql = rewrite::<Postgres>("SELECT id FROM users WHERE a = 1 OR b = 2", |w| {
        w.filter("role = 'admin'");
    })
    .unwrap();

    assert_eq!(
        sql,
        "SELECT id FROM users WHERE (a = 1 OR b = 2) AND role = 'admin'"
    );
}

/// And the same hazard from the other side.
#[test]
fn writer_an_or_in_the_fragment_is_parenthesised() {
    let sql = rewrite::<Postgres>("SELECT id FROM users WHERE tenant_id = $1", |w| {
        w.filter("role = 'admin' OR role = 'owner'");
    })
    .unwrap();

    assert_eq!(
        sql,
        "SELECT id FROM users WHERE tenant_id = $1 AND (role = 'admin' OR role = 'owner')"
    );
}

#[test]
fn writer_an_and_is_left_alone() {
    let sql = rewrite::<Postgres>("SELECT id FROM users WHERE a = 1 AND b = 2", |w| {
        w.filter("c = 3");
    })
    .unwrap();

    assert_eq!(sql, "SELECT id FROM users WHERE a = 1 AND b = 2 AND c = 3");
}

#[test]
fn writer_order_by_goes_in_front_and_the_base_becomes_a_tiebreaker() {
    let sql = rewrite::<Postgres>("SELECT id FROM users ORDER BY id", |w| {
        w.sort("name desc");
    })
    .unwrap();

    assert_eq!(sql, "SELECT id FROM users ORDER BY name DESC, id");
}

#[test]
fn writer_order_by_takes_a_list() {
    let sql = rewrite::<Postgres>("SELECT id FROM users", |w| {
        w.sort("name desc, created_at asc");
    })
    .unwrap();

    assert_eq!(
        sql,
        "SELECT id FROM users ORDER BY name DESC, created_at ASC"
    );
}

/// Repeated calls append, in the order they were made.
#[test]
fn writer_order_by_accumulates() {
    let sql = rewrite::<Postgres>("SELECT id FROM users ORDER BY id", |w| {
        w.sort("name desc").sort("created_at asc");
    })
    .unwrap();

    assert_eq!(
        sql,
        "SELECT id FROM users ORDER BY name DESC, created_at ASC, id"
    );
}

#[test]
fn writer_order_by_does_not_repeat_a_column_the_base_already_named() {
    let sql = rewrite::<Postgres>("SELECT id FROM users ORDER BY id", |w| {
        w.sort("id asc");
    })
    .unwrap();

    assert_eq!(sql, "SELECT id FROM users ORDER BY id ASC");
}

/// First mention of a column wins, and settles both its position and its
/// direction -- whether the second mention came from another call or from the
/// base query. Ordering by a column twice is not an error; the second one just
/// has nothing left to say.
#[test]
fn writer_order_by_does_not_repeat_a_column_an_earlier_call_named() {
    let sql = rewrite::<Postgres>("SELECT id FROM users ORDER BY id", |w| {
        w.sort("name asc").sort("name desc");
    })
    .unwrap();

    assert_eq!(sql, "SELECT id FROM users ORDER BY name ASC, id");
}

#[test]
fn writer_limit_replaces_the_base_limit() {
    let sql = rewrite::<Postgres>("SELECT id FROM users LIMIT 10", |w| {
        w.limit(50);
    })
    .unwrap();

    assert_eq!(sql, "SELECT id FROM users LIMIT 50");
}

/// `limit` replaces rather than accumulating: there is only one `LIMIT`, and
/// two calls cannot both be honoured.
#[test]
fn writer_limit_keeps_the_last_call() {
    let sql = rewrite::<Postgres>("SELECT id FROM users", |w| {
        w.limit(10).limit(20);
    })
    .unwrap();

    assert_eq!(sql, "SELECT id FROM users LIMIT 20");
}

/// The check that makes a fragment safe to accept as text: the expression
/// parses, and then there is a statement left over.
#[test]
fn writer_a_fragment_with_a_statement_after_it_is_refused() {
    let error = rewrite::<Postgres>("SELECT id FROM users", |w| {
        w.filter("role = 'admin'; DROP TABLE users");
    })
    .unwrap_err();

    assert!(matches!(error, Error::Trailing { .. }), "{error:?}");
}

#[test]
fn writer_a_trailing_fragment_in_order_by_is_refused() {
    let error = rewrite::<Postgres>("SELECT id FROM users", |w| {
        w.sort("name asc; DROP TABLE users");
    })
    .unwrap_err();

    assert!(matches!(error, Error::Trailing { .. }), "{error:?}");
}

#[test]
fn writer_a_fragment_that_is_not_an_expression_is_refused() {
    let error = rewrite::<Postgres>("SELECT id FROM users", |w| {
        w.filter("= = =");
    })
    .unwrap_err();

    assert!(matches!(error, Error::Fragment { .. }), "{error:?}");
}

/// sqlparser will read a bare keyword as an identifier, so `FROM WHERE` parses
/// as the expression `FROM` with `WHERE` left over. Insisting the parser
/// reached the end is what turns that leniency back into a rejection.
#[test]
fn writer_a_fragment_of_bare_keywords_does_not_slip_through_as_an_identifier() {
    let error = rewrite::<Postgres>("SELECT id FROM users", |w| {
        w.filter("FROM WHERE");
    })
    .unwrap_err();

    assert!(matches!(error, Error::Trailing { .. }), "{error:?}");
}

#[test]
fn writer_a_union_has_no_single_select_to_filter() {
    let error = rewrite::<Postgres>("SELECT id FROM a UNION SELECT id FROM b", |w| {
        w.filter("role = 'admin'");
    })
    .unwrap_err();

    assert!(matches!(error, Error::SetOperation), "{error:?}");
}

/// Ordering a union is unambiguous -- it applies to the whole result -- so it
/// is allowed even though filtering one is not.
#[test]
fn writer_a_union_can_still_be_ordered() {
    let sql = rewrite::<Postgres>("SELECT id FROM a UNION SELECT id FROM b", |w| {
        w.sort("id desc");
    })
    .unwrap();

    assert_eq!(
        sql,
        "SELECT id FROM a UNION SELECT id FROM b ORDER BY id DESC"
    );
}

#[test]
fn writer_a_group_by_makes_a_filter_ambiguous() {
    let error = rewrite::<Postgres>("SELECT role, count(*) FROM users GROUP BY role", |w| {
        w.filter("count(*) > 5");
    })
    .unwrap_err();

    assert!(matches!(error, Error::Grouped), "{error:?}");
}

#[test]
fn writer_a_statement_that_is_not_a_query_is_refused() {
    let error =
        QueryWriter::<Postgres>::new("INSERT INTO users (id) VALUES (1)").err().unwrap();

    assert!(matches!(error, Error::NotQuery), "{error:?}");
}

#[test]
fn writer_two_statements_are_refused() {
    let error = QueryWriter::<Postgres>::new("SELECT 1; SELECT 2").err().unwrap();

    assert!(matches!(error, Error::NotQuery), "{error:?}");
}

#[test]
fn writer_a_trailing_semicolon_is_not_a_second_statement() {
    let sql = rewrite::<Postgres>("SELECT id FROM users;", |w| {
        w.filter("active");
    })
    .unwrap();

    assert_eq!(sql, "SELECT id FROM users WHERE active");
}

#[test]
fn writer_a_query_that_does_not_parse_is_refused() {
    let error = QueryWriter::<Postgres>::new("SELECT * FROM").err().unwrap();

    assert!(matches!(error, Error::Query(_)), "{error:?}");
}

/// A failure recorded mid-chain has to keep being reported, or the second call
/// would look like it succeeded.
#[test]
fn writer_a_failure_is_reported_every_time_it_is_asked_for() {
    let mut writer = QueryWriter::<Postgres>::new("SELECT id FROM users").unwrap();
    writer.filter("role = 'admin'; DROP TABLE users");

    assert!(matches!(writer.sql(), Err(Error::Trailing { .. })));
    assert!(matches!(writer.sql(), Err(Error::Trailing { .. })));
}

/// And the first one is the one that explains the rest.
#[test]
fn writer_the_first_failure_wins() {
    let mut writer = QueryWriter::<Postgres>::new("SELECT id FROM users").unwrap();
    writer
        .filter("= = =")
        .filter("role = 'admin'; DROP TABLE users");

    assert!(matches!(writer.sql(), Err(Error::Fragment { .. })));
}
