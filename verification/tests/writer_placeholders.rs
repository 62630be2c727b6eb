//! How each driver's placeholders survive a rewrite.

use sqlx_query::driver::{Postgres, Sqlite};
use sqlx_query::writer::error::Error;
use sqlx_query::writer::filter::Literal;
use sqlx_query::writer::query::QueryWriter;
use sqlx_query::writer::syntax::Syntax;

fn rewrite<DB: Syntax>(
    sql: &str,
    apply: impl FnOnce(&mut QueryWriter<DB>),
) -> Result<String, Error> {
    let mut writer = QueryWriter::<DB>::new(sql)?;
    apply(&mut writer);
    writer.sql()
}

/// Counting is checked on the way to the driver, so a forgotten
/// fragment value is named here rather than surfacing from the driver
/// in its own terms.
#[test]
fn binding_too_few_values_is_refused() {
    let mut writer =
        QueryWriter::<Postgres>::new("SELECT id FROM t WHERE a = $1 AND b = $2").unwrap();
    writer.bind(Literal::Int(1));

    let Err(error) = writer.build() else {
        panic!("expected an error")
    };
    assert!(
        matches!(
            error,
            Error::Arity {
                wanted: 2,
                given: 1
            }
        ),
        "{error:?}"
    );
}

#[test]
fn binding_too_many_values_is_refused() {
    let mut writer = QueryWriter::<Postgres>::new("SELECT id FROM t WHERE a = $1").unwrap();
    writer.bind(Literal::Int(1)).bind(Literal::Int(2));

    let Err(error) = writer.build() else {
        panic!("expected an error")
    };
    assert!(
        matches!(
            error,
            Error::Arity {
                wanted: 1,
                given: 2
            }
        ),
        "{error:?}"
    );
}

/// A fragment's values are counted too, so forgetting them is caught.
#[test]
fn forgetting_a_fragments_value_is_refused() {
    let mut writer = QueryWriter::<Postgres>::new("SELECT id FROM t WHERE a = $1").unwrap();
    writer.bind(Literal::Int(1)).filter("b = $1");

    let Err(error) = writer.build() else {
        panic!("expected an error")
    };
    assert!(
        matches!(
            error,
            Error::Arity {
                wanted: 2,
                given: 1
            }
        ),
        "{error:?}"
    );
}

/// `sql()` renders without the check, so a query can be inspected or
/// logged before anything is bound.
#[test]
fn rendering_does_not_require_the_values() {
    let sql = rewrite::<Postgres>("SELECT id FROM t WHERE a = $1", |w| {
        w.filter("b = $1");
    })
    .unwrap();

    assert_eq!(sql, "SELECT id FROM t WHERE a = $1 AND b = $2");
}

/// A base query that skips a number claims two values and uses one.
/// PostgreSQL refuses this as well, for the same reason.
#[test]
fn a_base_query_that_skips_a_number_is_refused() {
    let error = rewrite::<Postgres>("SELECT id FROM t WHERE a = $2", |_| {}).unwrap_err();

    assert!(matches!(error, Error::Orphaned), "{error:?}");
}

#[test]
fn writer_postgres_renumbers_the_fragment_and_leaves_the_base_alone() {
    let sql = rewrite::<Postgres>("SELECT id FROM users WHERE tenant_id = $1 LIMIT $2", |w| {
        w.filter("role = $1");
    })
    .unwrap();

    assert_eq!(
        sql,
        "SELECT id FROM users WHERE tenant_id = $1 AND role = $3 LIMIT $2"
    );
}

#[test]
fn writer_a_fragment_numbers_from_one_and_is_renumbered_to_follow() {
    let sql = rewrite::<Postgres>("SELECT id FROM users WHERE tenant_id = $1", |w| {
        w.filter("role = $1");
    })
    .unwrap();

    assert_eq!(
        sql,
        "SELECT id FROM users WHERE tenant_id = $1 AND role = $2"
    );
}

/// The base query keeps its own numbering even though the fragment now renders
/// between its two placeholders -- `$N` names a value, not a position.
#[test]
fn writer_a_base_placeholder_after_the_where_keeps_its_number() {
    let sql = rewrite::<Postgres>("SELECT id FROM users WHERE tenant_id = $1 LIMIT $2", |w| {
        w.filter("role = $1");
    })
    .unwrap();

    assert_eq!(
        sql,
        "SELECT id FROM users WHERE tenant_id = $1 AND role = $3 LIMIT $2"
    );
}

#[test]
fn writer_placeholders_from_several_fragments_are_numbered_in_order() {
    let sql = rewrite::<Postgres>("SELECT id FROM users WHERE tenant_id = $1", |w| {
        w.filter("role = $1").filter("age > $1");
    })
    .unwrap();

    assert_eq!(
        sql,
        "SELECT id FROM users WHERE tenant_id = $1 AND role = $2 AND age > $3"
    );
}

/// Reusing `$1` binds the same value twice, which is what PostgreSQL means by
/// it -- so the fragment after it claims `$2`, not `$3`.
#[test]
fn writer_a_repeated_placeholder_claims_one_value() {
    let sql = rewrite::<Postgres>("SELECT id FROM users WHERE a = $1 OR b = $1", |w| {
        w.filter("role = $1");
    })
    .unwrap();

    assert_eq!(
        sql,
        "SELECT id FROM users WHERE (a = $1 OR b = $1) AND role = $2"
    );
}

#[test]
fn writer_postgres_allows_one_value_in_two_places() {
    let sql = rewrite::<Postgres>("SELECT id FROM users", |w| {
        w.filter("a = $1 OR b = $1");
    })
    .unwrap();

    assert_eq!(sql, "SELECT id FROM users WHERE a = $1 OR b = $1");
}

/// The reason this is a tree walk. A renumberer that scanned text would find
/// the `$1` inside the string and rewrite it; this one never sees it, because
/// it is a literal and not a placeholder node.
#[test]
fn writer_a_placeholder_inside_a_string_literal_is_not_a_placeholder() {
    let sql = rewrite::<Postgres>("SELECT id FROM users WHERE note = '$1 of $2'", |w| {
        w.filter("role = $1");
    })
    .unwrap();

    assert_eq!(
        sql,
        "SELECT id FROM users WHERE note = '$1 of $2' AND role = $1"
    );
}

/// Orphaning is not a `?` problem -- PostgreSQL would be handed a value for a
/// `$2` that is no longer in the statement.
#[test]
fn writer_replacing_a_limit_that_held_a_placeholder_is_refused() {
    let error = rewrite::<Postgres>("SELECT id FROM users WHERE tenant_id = $1 LIMIT $2", |w| {
        w.limit(50);
    })
    .unwrap_err();

    assert!(matches!(error, Error::Orphaned), "{error:?}");
}

/// Bare `?` on the way in, numbered on the way out. The base query is
/// written the way anyone would write it; the numbering is this crate's.
#[test]
fn writer_sqlite_numbers_placeholders_that_arrived_bare() {
    let sql = rewrite::<Sqlite>("SELECT id FROM users WHERE tenant_id = ?", |w| {
        w.filter("role = ?");
    })
    .unwrap();

    assert_eq!(
        sql,
        "SELECT id FROM users WHERE tenant_id = ?1 AND role = ?2"
    );
}

#[test]
fn writer_sqlite_does_the_same_with_question_marks() {
    let sql = rewrite::<Sqlite>("SELECT id FROM users WHERE tenant_id = ? LIMIT ?", |w| {
        w.filter("role = ?");
    })
    .unwrap();

    assert_eq!(
        sql,
        "SELECT id FROM users WHERE tenant_id = ?1 AND role = ?3 LIMIT ?2"
    );
}

/// And so does SQLite, now that it is numbered. It could not when the
/// output was a bare `?`.
#[test]
fn writer_sqlite_allows_one_value_in_two_places() {
    let sql = rewrite::<Sqlite>("SELECT id FROM users", |w| {
        w.filter("a = ?1 OR b = ?1");
    })
    .unwrap();

    assert_eq!(sql, "SELECT id FROM users WHERE a = ?1 OR b = ?1");
}

#[test]
fn writer_ordering_may_move_a_limit_placeholder() {
    let sql = rewrite::<Sqlite>("SELECT id FROM users LIMIT ?", |w| {
        w.sort("? asc");
    })
    .unwrap();

    assert_eq!(sql, "SELECT id FROM users ORDER BY ?2 ASC LIMIT ?1");
}

/// Replacing the limit deletes the placeholder that was in it, so the
/// value bound for it would have nowhere to go. Numbering cannot help
/// with a placeholder that is simply gone.
#[test]
fn replacing_a_limit_that_held_a_placeholder_is_refused() {
    let error = rewrite::<Sqlite>("SELECT id FROM users WHERE t = ? LIMIT ?", |w| {
        w.filter("role = ?").limit(50);
    })
    .unwrap_err();

    assert!(matches!(error, Error::Orphaned), "{error:?}");
}

#[test]
fn writer_replacing_a_literal_limit_is_fine() {
    let sql = rewrite::<Sqlite>("SELECT id FROM users WHERE t = ? LIMIT 10", |w| {
        w.filter("role = ?").limit(50);
    })
    .unwrap();

    assert_eq!(
        sql,
        "SELECT id FROM users WHERE t = ?1 AND role = ?2 LIMIT 50"
    );
}

#[test]
fn writer_a_question_mark_in_a_string_literal_is_not_a_placeholder() {
    let sql = rewrite::<Sqlite>("SELECT id FROM users WHERE note = '? ?'", |w| {
        w.filter("role = ?");
    })
    .unwrap();

    assert_eq!(sql, "SELECT id FROM users WHERE note = '? ?' AND role = ?1");
}
