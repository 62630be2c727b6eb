use sqlx_query::columns::Columns;
use sqlx_query::composer::clause::{ClauseView, WhereClause};
use sqlx_query::composer::value::Value;
use sqlx_query::driver::{MySql, Postgres, Sqlite};
use sqlx_query::splice::compose::QueryComposer;
use sqlx_query::splice::dialect::QueryDialect;
use sqlx_query::splice::fragment::QueryFragment;
use sqlx_query::splice::order::{Direction, OrderBy, OrderByError, Term};

struct Raw(&'static str, Vec<Value>);

impl QueryFragment for Raw {
    // Only proofs ask for it.
    fn contents(&self) -> ClauseView {
        unreachable!()
    }

    fn into_sql(self) -> (String, Vec<Value>) {
        (self.0.to_owned(), self.1)
    }
}

fn where_fragment() -> Raw {
    Raw("role = 'admin'", Vec::new())
}

fn order_by_fragment() -> Raw {
    Raw("name asc", Vec::new())
}

#[test]
fn substitutes_where_and_order_by_sentinels() {
    let sql = "SELECT id FROM users WHERE id = $1 /* query.where AND */ ORDER BY /* query.order_by , */ id LIMIT $2 OFFSET $3";
    let mut query = QueryComposer::<Postgres>::new(sql);
    query
        .bind(Value::text("007"))
        .bind(Value::from(0i64))
        .bind(Value::from(10i64))
        .filter(where_fragment())
        .order_by(order_by_fragment());

    let (sql, values) = query.render();

    assert!(sql.contains("role = 'admin' AND"));
    assert!(sql.contains("name asc , id"));
    assert!(!sql.contains("query.where"));
    assert!(!sql.contains("query.order_by"));
    assert_eq!(
        values,
        vec![Value::String("007".into()), Value::Int(0), Value::Int(10),]
    );
}

#[test]
fn missing_filter_drops_where_sentinel_and_keeps_order_by() {
    let sql = "SELECT id FROM users WHERE id = $1 /* query.where AND */ ORDER BY /* query.order_by , */ id";
    let mut query = QueryComposer::<Postgres>::new(sql);
    query.bind(Value::text("007")).order_by(order_by_fragment());

    let (sql, _) = query.render();

    assert!(!sql.contains("query.where"));
    assert!(!sql.contains("role = 'admin'"));
    assert!(sql.contains("name asc , id"));
}

#[test]
fn missing_order_by_drops_sentinel_and_keeps_where() {
    let sql = "SELECT id FROM users WHERE id = $1 /* query.where AND */ ORDER BY /* query.order_by , */ id";
    let mut query = QueryComposer::<Postgres>::new(sql);
    query.bind(Value::text("007")).filter(where_fragment());

    let (sql, _) = query.render();

    assert!(sql.contains("role = 'admin' AND"));
    assert!(!sql.contains("query.order_by"));
    assert!(!sql.contains("name asc"));
}

#[test]
fn both_missing_drops_both_sentinels_but_keeps_base_binds() {
    let sql = "SELECT id FROM users WHERE id = $1 /* query.where AND */ ORDER BY /* query.order_by , */ id";
    let mut query = QueryComposer::<Postgres>::new(sql);
    query.bind(Value::text("007"));

    let (sql, values) = query.render();

    assert!(!sql.contains("query."));
    assert_eq!(values, vec![Value::String("007".into())]);
}

#[test]
fn preserves_or_connective() {
    let sql = "SELECT * FROM t WHERE a = 1 /* query.where OR */";
    let mut query = QueryComposer::<Postgres>::new(sql);
    query.filter(where_fragment());

    let (sql, _) = query.render();

    assert!(sql.contains("role = 'admin' OR"));
    assert!(!sql.contains("query.where"));
}

#[test]
fn bare_sentinel_substitutes_value_alone() {
    let sql = "SELECT * FROM t WHERE /* query.where */";
    let mut query = QueryComposer::<Postgres>::new(sql);
    query.filter(where_fragment());

    let (sql, _) = query.render();

    assert!(sql.contains("role = 'admin'"));
    assert!(!sql.contains("query.where"));
}

#[test]
fn order_by_sentinel_before_static_list() {
    let sql = "SELECT * FROM t ORDER BY /* query.order_by , */ id";

    let mut with_order_by = QueryComposer::<Postgres>::new(sql);
    with_order_by.order_by(Raw("priority desc", Vec::new()));
    let (sql_with, _) = with_order_by.render();
    assert!(sql_with.contains("priority desc , id"));

    let without_order_by = QueryComposer::<Postgres>::new(sql);
    let (sql_without, _) = without_order_by.render();
    assert!(!sql_without.contains("query.order_by"));
    assert!(!sql_without.contains(','));
    assert!(sql_without.contains("id"));
}

#[test]
fn multiple_sentinels_of_the_same_kind_all_substituted() {
    let sql = "SELECT * FROM t WHERE 1 = 1 /* query.where AND */ /* query.where AND */";
    let mut query = QueryComposer::<Postgres>::new(sql);
    query.filter(where_fragment());

    let (sql, _) = query.render();

    assert_eq!(sql.matches("role = 'admin' AND").count(), 2);
    assert!(!sql.contains("query.where"));
}

#[test]
fn shifts_filter_placeholders_past_base_binds() {
    let sql = "SELECT * FROM t WHERE tenant = $1 /* query.where AND */";
    let mut query = QueryComposer::<Postgres>::new(sql);
    query.bind(Value::text("acme")).filter(Raw(
        "name = $1 AND score > $2",
        vec![Value::String("alice".into()), Value::Int(90)],
    ));

    let (sql, values) = query.render();

    assert!(sql.contains("name = $2 AND score > $3 AND"));
    assert_eq!(
        values,
        vec![
            Value::String("acme".into()),
            Value::String("alice".into()),
            Value::Int(90),
        ]
    );
}

#[test]
fn shifts_order_by_placeholder_past_base_binds() {
    let sql = "SELECT id FROM users WHERE id = $1 /* query.where AND */ ORDER BY /* query.order_by , */ id LIMIT $2 OFFSET $3";
    let mut query = QueryComposer::<Postgres>::new(sql);
    query.bind(Value::text("007")).bind(Value::from(0i64)).bind(Value::from(10i64)).order_by(Raw(
        "CASE WHEN role = $1 THEN 0 ELSE 1 END",
        vec![Value::String("admin".into())],
    ));

    let (sql, values) = query.render();

    assert!(sql.contains("CASE WHEN role = $4 THEN 0 ELSE 1 END ,"));
    assert_eq!(
        values,
        vec![
            Value::String("007".into()),
            Value::Int(0),
            Value::Int(10),
            Value::String("admin".into()),
        ]
    );
}

#[test]
fn zero_offset_leaves_filter_placeholders_unchanged() {
    let sql = "SELECT * FROM t WHERE 1 = 1 /* query.where AND */";
    let mut query = QueryComposer::<Postgres>::new(sql);
    query.filter(Raw(
        "name = $1 AND score > $2",
        vec![Value::String("alice".into()), Value::Int(90)],
    ));

    let (sql, values) = query.render();

    assert!(sql.contains("name = $1 AND score > $2 AND"));
    assert_eq!(values, vec![Value::String("alice".into()), Value::Int(90)]);
}

#[test]
fn leaves_non_matching_comments_untouched() {
    let sql = "SELECT 1 /* regular comment */ FROM t WHERE TRUE /* query.where AND */";
    let mut query = QueryComposer::<Postgres>::new(sql);
    query.filter(where_fragment());

    let (sql, _) = query.render();

    assert!(sql.contains("/* regular comment */"));
    assert!(sql.contains("role = 'admin' AND"));
}

#[test]
fn unknown_sentinel_name_dropped_entirely() {
    let sql = "SELECT 1 FROM t WHERE TRUE /* query.unknown AND */";
    let query = QueryComposer::<Postgres>::new(sql);

    let (sql, _) = query.render();

    assert!(!sql.contains("query.unknown"));
    assert!(!sql.contains("AND"));
}

#[test]
fn no_sentinels_present_leaves_sql_untouched() {
    let sql = "SELECT * FROM t WHERE id = $1";
    let mut query = QueryComposer::<Postgres>::new(sql);
    query.bind(Value::from(1i64));

    let (rendered, values) = query.render();

    assert_eq!(rendered, sql);
    assert_eq!(values, vec![Value::Int(1)]);
}

#[test]
fn index_based_numbering_survives_placeholders_declared_after_the_marker_in_text() {
    let sql = "SELECT * FROM collection \
               WHERE /* query.where AND */ TRUE \
               ORDER BY /* query.order_by , */ collection_id \
               LIMIT $1 OFFSET $2";

    let mut query = QueryComposer::<Postgres>::new(sql);
    query
        .bind(Value::from(50i64)) // take -> $1
        .bind(Value::from(0i64)) // skip -> $2
        .filter(Raw("status = $1", vec![Value::String("ACTIVE".into())]))
        .order_by(Raw("rank = $1", vec![Value::Int(7)]));

    let (sql, values) = query.render();

    assert!(sql.contains("WHERE status = $3 AND TRUE"));
    assert!(sql.contains("ORDER BY rank = $4 , collection_id"));
    assert!(sql.contains("LIMIT $1 OFFSET $2"));
    assert_eq!(
        values,
        vec![
            Value::Int(50),
            Value::Int(0),
            Value::String("ACTIVE".into()),
            Value::Int(7),
        ]
    );
}

#[test]
fn order_by_fragment_type_splices_through_composer() {
    let sql = "SELECT * FROM t ORDER BY /* query.order_by , */ id";
    let order_by = OrderBy::parse("rank desc").unwrap();

    let mut query = QueryComposer::<Postgres>::new(sql);
    query.order_by(order_by);

    let (sql, values) = query.render();

    assert!(sql.contains("rank DESC , id"));
    assert!(values.is_empty());
}

#[test]
fn build_produces_a_query_with_the_rendered_sql() {
    let sql = "SELECT * FROM t WHERE /* query.where AND */ TRUE";
    let mut query = QueryComposer::<Postgres>::new(sql);
    query.filter(where_fragment());

    let (built, _) = query.render();

    assert!(built.contains("role = 'admin' AND TRUE"));
}

#[test]
fn order_by_parses_default_direction() {
    let order_by = OrderBy::parse("rank").unwrap();
    assert_eq!(
        order_by.terms(),
        [Term {
            field: "rank".into(),
            direction: Direction::Asc
        }]
    );
}

#[test]
fn order_by_parses_explicit_direction_case_insensitively() {
    let order_by = OrderBy::parse("rank DESC, created asc").unwrap();
    assert_eq!(
        order_by.terms(),
        [
            Term {
                field: "rank".into(),
                direction: Direction::Desc
            },
            Term {
                field: "created".into(),
                direction: Direction::Asc
            },
        ]
    );
}

#[test]
fn order_by_empty_string_parses_to_empty_order_by() {
    let order_by = OrderBy::parse("").unwrap();
    assert_eq!(order_by, OrderBy::default());
    assert_eq!(order_by.render(), "");
}

#[test]
fn order_by_rejects_invalid_direction() {
    let err = OrderBy::parse("rank sideways").unwrap_err();
    assert_eq!(
        err,
        OrderByError::InvalidDirection {
            field: "rank".into(),
            direction: "sideways".into()
        }
    );
}

#[test]
fn order_by_rejects_empty_term() {
    let err = OrderBy::parse("rank,,created").unwrap_err();
    assert_eq!(err, OrderByError::EmptyTerm("rank,,created".into()));
}

#[test]
fn order_by_resolve_renames_fields_against_allow_list() {
    let columns = Columns::new().with("rank", "rank").with("created", "created_at");
    let order_by = OrderBy::parse("created desc, rank")
        .unwrap()
        .resolve(&columns)
        .unwrap();
    assert_eq!(order_by.render(), "created_at DESC, rank ASC");
}

#[test]
fn order_by_resolve_fails_closed_on_unknown_field() {
    let columns = Columns::new().with("rank", "rank");
    let err = OrderBy::parse("internal_notes")
        .unwrap()
        .resolve(&columns)
        .unwrap_err();
    assert_eq!(err, OrderByError::UnknownField("internal_notes".into()));
}

#[test]
fn only_numbered_placeholders_are_shifted() {
    assert!(Postgres::positional());
    assert!(!MySql::positional());
    assert!(!Sqlite::positional());

    let mut query = QueryComposer::<MySql>::new("SELECT ? /* query.where */");
    query
        .bind(Value::from(1i64))
        .where_by(WhereClause::new("a = $1").bind(Value::from(2i64)));
    let (sql, values) = query.render();
    assert_eq!(sql, "SELECT ? a = $1");
    assert_eq!(values, vec![Value::Int(1), Value::Int(2)]);
}

#[test]
fn a_fragment_without_text_leaves_nothing_behind() {
    let mut query = QueryComposer::<Postgres>::new("SELECT 1 /* query.where AND */");
    query.filter(Raw("", vec![Value::Int(9)]));
    let (sql, values) = query.render();
    assert_eq!(sql, "SELECT 1 ");
    assert!(values.is_empty());
}

#[test]
fn a_mark_is_found_wherever_it_stands() {
    let sql = "SELECT '/* query.where AND */' /* query.where * */ /*/* query.where OR */";
    let mut query = QueryComposer::<Postgres>::new(sql);
    query.filter(where_fragment());
    let (sql, _) = query.render();
    assert_eq!(
        sql,
        "SELECT 'role = 'admin' AND' /* query.where * */ /*role = 'admin' OR"
    );
}

#[test]
fn copied_orderings_are_the_same() {
    let order_by = OrderBy::parse("rank desc, id").unwrap();
    assert_eq!(order_by.clone(), order_by);
    let error = OrderBy::parse("rank sideways").unwrap_err();
    assert_eq!(error.clone(), error);
}
