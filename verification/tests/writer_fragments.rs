//! Rewriting with fragments alone.

use sqlx_query::driver::{MySql, Postgres, Sqlite};
use sqlx_query::writer::error::Error;
use sqlx_query::writer::query::QueryWriter;
use sqlx_query::writer::syntax::Syntax;

fn rewrite<DB: Syntax>(
    sql: &str,
    apply: impl FnOnce(&mut QueryWriter<DB>),
) -> Result<String, Error> {
    let mut writer = QueryWriter::<DB>::new(sql)?;
    apply(&mut writer);
    writer.sql()
}

#[test]
fn rewrite_filter_becomes_the_where_when_there_is_none() {
    let sql = rewrite::<Postgres>("SELECT id FROM users", |w| {
        w.filter_by("role = 'admin'");
    })
    .unwrap();

    assert_eq!(sql, "SELECT id FROM users WHERE role = 'admin'");
}

#[test]
fn rewrite_filter_joins_an_existing_where() {
    let sql = rewrite::<Postgres>("SELECT id FROM users WHERE tenant_id = $1", |w| {
        w.filter_by("role = 'admin'");
    })
    .unwrap();

    assert_eq!(
        sql,
        "SELECT id FROM users WHERE tenant_id = $1 AND role = 'admin'"
    );
}

#[test]
fn rewrite_filters_accumulate() {
    let sql = rewrite::<Postgres>("SELECT id FROM users", |w| {
        w.filter_by("role = 'admin'")
            .filter_by("active")
            .filter_by("age > 18");
    })
    .unwrap();

    assert_eq!(
        sql,
        "SELECT id FROM users WHERE role = 'admin' AND active AND age > 18"
    );
}

/// The case a text splice gets wrong. `AND` binds tighter than `OR`, so
/// appending ` AND role = 'admin'` to this `WHERE` would quietly re-associate
/// it into `a = 1 OR (b = 2 AND role = 'admin')`.
#[test]
fn rewrite_an_or_in_the_base_query_is_parenthesised() {
    let sql = rewrite::<Postgres>("SELECT id FROM users WHERE a = 1 OR b = 2", |w| {
        w.filter_by("role = 'admin'");
    })
    .unwrap();

    assert_eq!(
        sql,
        "SELECT id FROM users WHERE (a = 1 OR b = 2) AND role = 'admin'"
    );
}

/// And the same hazard from the other side.
#[test]
fn rewrite_an_or_in_the_fragment_is_parenthesised() {
    let sql = rewrite::<Postgres>("SELECT id FROM users WHERE tenant_id = $1", |w| {
        w.filter_by("role = 'admin' OR role = 'owner'");
    })
    .unwrap();

    assert_eq!(
        sql,
        "SELECT id FROM users WHERE tenant_id = $1 AND (role = 'admin' OR role = 'owner')"
    );
}

#[test]
fn rewrite_an_and_is_left_alone() {
    let sql = rewrite::<Postgres>("SELECT id FROM users WHERE a = 1 AND b = 2", |w| {
        w.filter_by("c = 3");
    })
    .unwrap();

    assert_eq!(sql, "SELECT id FROM users WHERE a = 1 AND b = 2 AND c = 3");
}

#[test]
fn rewrite_order_by_goes_in_front_and_the_base_becomes_a_tiebreaker() {
    let sql = rewrite::<Postgres>("SELECT id FROM users ORDER BY id", |w| {
        w.order_by("name desc");
    })
    .unwrap();

    assert_eq!(sql, "SELECT id FROM users ORDER BY name DESC, id");
}

#[test]
fn rewrite_order_by_does_not_repeat_a_column_the_base_already_named() {
    let sql = rewrite::<Postgres>("SELECT id FROM users ORDER BY id", |w| {
        w.order_by("id asc");
    })
    .unwrap();

    assert_eq!(sql, "SELECT id FROM users ORDER BY id ASC");
}

/// Repeated calls append, in the order they were made.
#[test]
fn rewrite_order_by_accumulates() {
    let sql = rewrite::<Postgres>("SELECT id FROM users ORDER BY id", |w| {
        w.order_by("name desc").order_by("created_at asc");
    })
    .unwrap();

    assert_eq!(
        sql,
        "SELECT id FROM users ORDER BY name DESC, created_at ASC, id"
    );
}

/// First mention of a column wins, and settles both its position and its
/// direction -- whether the second mention came from another call or from the
/// base query. Ordering by a column twice is not an error; the second one just
/// has nothing left to say.
#[test]
fn rewrite_order_by_does_not_repeat_a_column_an_earlier_call_named() {
    let sql = rewrite::<Postgres>("SELECT id FROM users ORDER BY id", |w| {
        w.order_by("name asc").order_by("name desc");
    })
    .unwrap();

    assert_eq!(sql, "SELECT id FROM users ORDER BY name ASC, id");
}

/// `limit` replaces rather than accumulating: there is only one `LIMIT`, and
/// two calls cannot both be honoured.
#[test]
fn rewrite_limit_keeps_the_last_call() {
    let sql = rewrite::<Postgres>("SELECT id FROM users", |w| {
        w.limit(10).limit(20);
    })
    .unwrap();

    assert_eq!(sql, "SELECT id FROM users LIMIT 20");
}

#[test]
fn rewrite_order_by_takes_a_list() {
    let sql = rewrite::<Postgres>("SELECT id FROM users", |w| {
        w.order_by("name desc, created_at asc");
    })
    .unwrap();

    assert_eq!(
        sql,
        "SELECT id FROM users ORDER BY name DESC, created_at ASC"
    );
}

/// Orphaning is not a `?` problem -- PostgreSQL would be handed a value for a
/// `$2` that is no longer in the statement.
#[test]
fn rewrite_replacing_a_limit_that_held_a_placeholder_is_refused() {
    let error = rewrite::<Postgres>("SELECT id FROM users WHERE tenant_id = $1 LIMIT $2", |w| {
        w.limit(50);
    })
    .unwrap_err();

    assert!(matches!(error, Error::Orphaned), "{error:?}");
}

#[test]
fn rewrite_limit_replaces_the_base_limit() {
    let sql = rewrite::<Postgres>("SELECT id FROM users LIMIT 10", |w| {
        w.limit(50);
    })
    .unwrap();

    assert_eq!(sql, "SELECT id FROM users LIMIT 50");
}

#[test]
fn rewrite_a_fragment_numbers_from_one_and_is_renumbered_to_follow() {
    let sql = rewrite::<Postgres>("SELECT id FROM users WHERE tenant_id = $1", |w| {
        w.filter_by("role = $1");
    })
    .unwrap();

    assert_eq!(
        sql,
        "SELECT id FROM users WHERE tenant_id = $1 AND role = $2"
    );
}

/// The base query keeps its own numbering even though the fragment now renders
/// between its two placeholders -- `$N` names a value, not a position.
#[test]
fn rewrite_a_base_placeholder_after_the_where_keeps_its_number() {
    let sql = rewrite::<Postgres>("SELECT id FROM users WHERE tenant_id = $1 LIMIT $2", |w| {
        w.filter_by("role = $1");
    })
    .unwrap();

    assert_eq!(
        sql,
        "SELECT id FROM users WHERE tenant_id = $1 AND role = $3 LIMIT $2"
    );
}

#[test]
fn rewrite_placeholders_from_several_fragments_are_numbered_in_order() {
    let sql = rewrite::<Postgres>("SELECT id FROM users WHERE tenant_id = $1", |w| {
        w.filter_by("role = $1").filter_by("age > $1");
    })
    .unwrap();

    assert_eq!(
        sql,
        "SELECT id FROM users WHERE tenant_id = $1 AND role = $2 AND age > $3"
    );
}

/// Reusing `$1` binds the same value twice, which is what PostgreSQL means by
/// it -- so the fragment after it claims `$2`, not `$3`.
#[test]
fn rewrite_a_repeated_placeholder_claims_one_value() {
    let sql = rewrite::<Postgres>("SELECT id FROM users WHERE a = $1 OR b = $1", |w| {
        w.filter_by("role = $1");
    })
    .unwrap();

    assert_eq!(
        sql,
        "SELECT id FROM users WHERE (a = $1 OR b = $1) AND role = $2"
    );
}

/// The reason this is a tree walk. A renumberer that scanned text would find
/// the `$1` inside the string and rewrite it; this one never sees it, because
/// it is a literal and not a placeholder node.
#[test]
fn rewrite_a_placeholder_inside_a_string_literal_is_not_a_placeholder() {
    let sql = rewrite::<Postgres>("SELECT id FROM users WHERE note = '$1 of $2'", |w| {
        w.filter_by("role = $1");
    })
    .unwrap();

    assert_eq!(
        sql,
        "SELECT id FROM users WHERE note = '$1 of $2' AND role = $1"
    );
}

/// The check that makes a fragment safe to accept as text: the expression
/// parses, and then there is a statement left over.
#[test]
fn rewrite_a_fragment_with_a_statement_after_it_is_refused() {
    let error = rewrite::<Postgres>("SELECT id FROM users", |w| {
        w.filter_by("role = 'admin'; DROP TABLE users");
    })
    .unwrap_err();

    assert!(matches!(error, Error::Trailing { .. }), "{error:?}");
}

#[test]
fn rewrite_a_trailing_fragment_in_order_by_is_refused() {
    let error = rewrite::<Postgres>("SELECT id FROM users", |w| {
        w.order_by("name asc; DROP TABLE users");
    })
    .unwrap_err();

    assert!(matches!(error, Error::Trailing { .. }), "{error:?}");
}

#[test]
fn rewrite_a_fragment_that_is_not_an_expression_is_refused() {
    let error = rewrite::<Postgres>("SELECT id FROM users", |w| {
        w.filter_by("= = =");
    })
    .unwrap_err();

    assert!(matches!(error, Error::Fragment { .. }), "{error:?}");
}

/// sqlparser will read a bare keyword as an identifier, so `FROM WHERE` parses
/// as the expression `FROM` with `WHERE` left over. Insisting the parser
/// reached the end is what turns that leniency back into a rejection.
#[test]
fn rewrite_a_fragment_of_bare_keywords_does_not_slip_through_as_an_identifier() {
    let error = rewrite::<Postgres>("SELECT id FROM users", |w| {
        w.filter_by("FROM WHERE");
    })
    .unwrap_err();

    assert!(matches!(error, Error::Trailing { .. }), "{error:?}");
}

#[test]
fn rewrite_a_union_has_no_single_select_to_filter() {
    let error = rewrite::<Postgres>("SELECT id FROM a UNION SELECT id FROM b", |w| {
        w.filter_by("role = 'admin'");
    })
    .unwrap_err();

    assert!(matches!(error, Error::SetOperation), "{error:?}");
}

/// Ordering a union is unambiguous -- it applies to the whole result -- so it
/// is allowed even though filtering one is not.
#[test]
fn rewrite_a_union_can_still_be_ordered() {
    let sql = rewrite::<Postgres>("SELECT id FROM a UNION SELECT id FROM b", |w| {
        w.order_by("id desc");
    })
    .unwrap();

    assert_eq!(
        sql,
        "SELECT id FROM a UNION SELECT id FROM b ORDER BY id DESC"
    );
}

#[test]
fn rewrite_a_group_by_makes_a_filter_ambiguous() {
    let error = rewrite::<Postgres>("SELECT role, count(*) FROM users GROUP BY role", |w| {
        w.filter_by("count(*) > 5");
    })
    .unwrap_err();

    assert!(matches!(error, Error::Grouped), "{error:?}");
}

#[test]
fn rewrite_a_statement_that_is_not_a_query_is_refused() {
    let error = QueryWriter::<Postgres>::new("INSERT INTO users (id) VALUES (1)").err().unwrap();

    assert!(matches!(error, Error::NotQuery), "{error:?}");
}

#[test]
fn rewrite_two_statements_are_refused() {
    let error = QueryWriter::<Postgres>::new("SELECT 1; SELECT 2").err().unwrap();

    assert!(matches!(error, Error::NotQuery), "{error:?}");
}

#[test]
fn rewrite_a_trailing_semicolon_is_not_a_second_statement() {
    let sql = rewrite::<Postgres>("SELECT id FROM users;", |w| {
        w.filter_by("active");
    })
    .unwrap();

    assert_eq!(sql, "SELECT id FROM users WHERE active");
}

#[test]
fn rewrite_a_query_that_does_not_parse_is_refused() {
    let error = QueryWriter::<Postgres>::new("SELECT * FROM").err().unwrap();

    assert!(matches!(error, Error::Query(_)), "{error:?}");
}

/// A failure recorded mid-chain has to keep being reported, or the second call
/// would look like it succeeded.
#[test]
fn rewrite_a_failure_is_reported_every_time_it_is_asked_for() {
    let mut writer = QueryWriter::<Postgres>::new("SELECT id FROM users").unwrap();
    writer.filter_by("role = 'admin'; DROP TABLE users");

    assert!(matches!(writer.sql(), Err(Error::Trailing { .. })));
    assert!(matches!(writer.sql(), Err(Error::Trailing { .. })));
}

/// And the first one is the one that explains the rest.
#[test]
fn rewrite_the_first_failure_wins() {
    let mut writer = QueryWriter::<Postgres>::new("SELECT id FROM users").unwrap();
    writer
        .filter_by("= = =")
        .filter_by("role = 'admin'; DROP TABLE users");

    assert!(matches!(writer.sql(), Err(Error::Fragment { .. })));
}

#[test]
fn positional_postgres_renumbers_the_fragment_and_leaves_the_base_alone() {
    let sql =
        rewrite::<Postgres>("SELECT id FROM users WHERE tenant_id = $1 LIMIT $2", |w| {
            w.filter_by("role = $1");
        })
        .unwrap();

    assert_eq!(
        sql,
        "SELECT id FROM users WHERE tenant_id = $1 AND role = $3 LIMIT $2"
    );
}

#[test]
fn positional_sqlite_does_the_same_with_question_marks() {
    let sql =
        rewrite::<Sqlite>("SELECT id FROM users WHERE tenant_id = ? LIMIT ?", |w| {
            w.filter_by("role = ?");
        })
        .unwrap();

    assert_eq!(
        sql,
        "SELECT id FROM users WHERE tenant_id = ?1 AND role = ?3 LIMIT ?2"
    );
}

/// Bare `?` on the way in, numbered on the way out. The base query is
/// written the way anyone would write it; the numbering is this crate's.
#[test]
fn positional_sqlite_numbers_placeholders_that_arrived_bare() {
    let sql = rewrite::<Sqlite>("SELECT id FROM users WHERE tenant_id = ?", |w| {
        w.filter_by("role = ?");
    })
    .unwrap();

    assert_eq!(
        sql,
        "SELECT id FROM users WHERE tenant_id = ?1 AND role = ?2"
    );
}

#[test]
fn positional_postgres_allows_one_value_in_two_places() {
    let sql = rewrite::<Postgres>("SELECT id FROM users", |w| {
        w.filter_by("a = $1 OR b = $1");
    })
    .unwrap();

    assert_eq!(sql, "SELECT id FROM users WHERE a = $1 OR b = $1");
}

/// And so does SQLite, now that it is numbered. It could not when the
/// output was a bare `?`.
#[test]
fn positional_sqlite_allows_one_value_in_two_places() {
    let sql = rewrite::<Sqlite>("SELECT id FROM users", |w| {
        w.filter_by("a = ?1 OR b = ?1");
    })
    .unwrap();

    assert_eq!(sql, "SELECT id FROM users WHERE a = ?1 OR b = ?1");
}

#[test]
fn positional_ordering_may_move_a_limit_placeholder() {
    let sql = rewrite::<Sqlite>("SELECT id FROM users LIMIT ?", |w| {
        w.order_by("? asc");
    })
    .unwrap();

    assert_eq!(sql, "SELECT id FROM users ORDER BY ?2 ASC LIMIT ?1");
}

/// Replacing the limit deletes the placeholder that was in it, so the
/// value bound for it would have nowhere to go. Numbering cannot help
/// with a placeholder that is simply gone.
#[test]
fn positional_replacing_a_limit_that_held_a_placeholder_is_refused() {
    let error = rewrite::<Sqlite>("SELECT id FROM users WHERE t = ? LIMIT ?", |w| {
        w.filter_by("role = ?").limit(50);
    })
    .unwrap_err();

    assert!(matches!(error, Error::Orphaned), "{error:?}");
}

#[test]
fn positional_replacing_a_literal_limit_is_fine() {
    let sql = rewrite::<Sqlite>("SELECT id FROM users WHERE t = ? LIMIT 10", |w| {
        w.filter_by("role = ?").limit(50);
    })
    .unwrap();

    assert_eq!(
        sql,
        "SELECT id FROM users WHERE t = ?1 AND role = ?2 LIMIT 50"
    );
}

#[test]
fn positional_a_question_mark_in_a_string_literal_is_not_a_placeholder() {
    let sql = rewrite::<Sqlite>("SELECT id FROM users WHERE note = '? ?'", |w| {
        w.filter_by("role = ?");
    })
    .unwrap();

    assert_eq!(sql, "SELECT id FROM users WHERE note = '? ?' AND role = ?1");
}

#[test]
fn a_fragment_after_the_last_placeholder_is_fine() {
    let sql = rewrite::<MySql>("SELECT id FROM users WHERE tenant_id = ?", |w| {
        w.filter_by("role = ?");
    })
    .unwrap();

    assert_eq!(sql, "SELECT id FROM users WHERE tenant_id = ? AND role = ?");
}

/// The placeholders stay bare and in place; what moves is the order the
/// values are sent in, which this cannot show. See `mysql.rs`.
#[test]
fn a_fragment_before_an_existing_placeholder_is_rewritten() {
    let sql = rewrite::<MySql>("SELECT id FROM users WHERE tenant_id = ? LIMIT ?", |w| {
        w.filter_by("role = ?");
    })
    .unwrap();

    assert_eq!(
        sql,
        "SELECT id FROM users WHERE tenant_id = ? AND role = ? LIMIT ?"
    );
}

#[test]
fn a_question_mark_in_a_string_literal_is_not_a_placeholder() {
    let sql = rewrite::<MySql>("SELECT id FROM users WHERE note = '? ?'", |w| {
        w.filter_by("role = ?");
    })
    .unwrap();

    assert_eq!(sql, "SELECT id FROM users WHERE note = '? ?' AND role = ?");
}

/// The one thing bare `?` cannot express. PostgreSQL and SQLite both
/// allow one value in two places; MySQL has no way to name an earlier one,
/// so a fragment that asks for it is refused rather than silently given
/// two values.
#[test]
fn one_value_wanted_by_two_placeholders_is_refused() {
    let error = rewrite::<MySql>("SELECT id FROM users", |w| {
        w.filter_by("a = ?1 OR b = ?1");
    })
    .unwrap_err();

    assert!(matches!(error, Error::Positional), "{error:?}");
}
