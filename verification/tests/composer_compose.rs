use sqlx_query::composer::clause::WhereClause;
use sqlx_query::composer::compose::{QueryArgument, QueryComposer, QueryStatement};
use sqlx_query::composer::cursor::Cursor;
use sqlx_query::composer::error::Error;
use sqlx_query::composer::order::OrderByClause;
use sqlx_query::composer::syntax::QueryDialect;
use sqlx_query::composer::value::Value;
use sqlx_query::driver::{MySql, Postgres, Sqlite};

fn values(statement: &QueryStatement) -> Vec<Value> {
    statement
        .arguments()
        .iter()
        .map(|argument| {
            argument
                .value()
                .expect("these tests bind scalars, not opaque values")
                .clone()
        })
        .collect()
}

fn admin_filter() -> WhereClause {
    WhereClause::new("role = 'admin'")
}

fn name_order_by() -> OrderByClause {
    OrderByClause::parse("name asc").unwrap()
}

#[test]
fn substitutes_where_and_order_by_slots() {
    let sql = "SELECT id FROM users WHERE id = $1 /* query.where AND */ ORDER BY /* query.order_by , */ id LIMIT $2 OFFSET $3";
    let mut query = QueryComposer::<Postgres>::new(sql);
    query
        .bind_value(Value::text("007"))
        .bind_value(Value::from(0i64))
        .bind_value(Value::from(10i64))
        .push_where(admin_filter())
        .push_order_by(name_order_by());

    let statement = query.compose().unwrap();
    let (sql, values) = (statement.sql(), values(&statement));

    assert!(sql.contains("role = 'admin' AND"));
    assert!(sql.contains("name ASC , id"));
    assert!(!sql.contains("query.where"));
    assert!(!sql.contains("query.order_by"));
    assert_eq!(
        values,
        vec![Value::String("007".into()), Value::Int(0), Value::Int(10),]
    );
}

#[test]
fn missing_filter_drops_where_slot_and_keeps_order_by() {
    let sql = "SELECT id FROM users WHERE id = $1 /* query.where AND */ ORDER BY /* query.order_by , */ id";
    let mut query = QueryComposer::<Postgres>::new(sql);
    query.bind_value(Value::text("007")).push_order_by(name_order_by());

    let sql = query.compose().unwrap().sql().to_owned();

    assert!(!sql.contains("query.where"));
    assert!(!sql.contains("role = 'admin'"));
    assert!(sql.contains("name ASC , id"));
}

#[test]
fn missing_order_by_drops_slot_and_keeps_where() {
    let sql = "SELECT id FROM users WHERE id = $1 /* query.where AND */ ORDER BY /* query.order_by , */ id";
    let mut query = QueryComposer::<Postgres>::new(sql);
    query.bind_value(Value::text("007")).push_where(admin_filter());

    let sql = query.compose().unwrap().sql().to_owned();

    assert!(sql.contains("role = 'admin' AND"));
    assert!(!sql.contains("query.order_by"));
    assert!(!sql.contains("ASC"));
}

#[test]
fn both_missing_drops_both_slots_but_keeps_base_binds() {
    let sql = "SELECT id FROM users WHERE id = $1 /* query.where AND */ ORDER BY /* query.order_by , */ id";
    let mut query = QueryComposer::<Postgres>::new(sql);
    query.bind_value(Value::text("007"));

    let statement = query.compose().unwrap();
    let (sql, values) = (statement.sql(), values(&statement));

    assert!(!sql.contains("query."));
    assert_eq!(values, vec![Value::String("007".into())]);
}

#[test]
fn composer_preserves_or_connective() {
    let sql = "SELECT * FROM t WHERE a = 1 /* query.where OR */";
    let mut query = QueryComposer::<Postgres>::new(sql);
    query.push_where(admin_filter());

    let sql = query.compose().unwrap().sql().to_owned();

    assert!(sql.contains("role = 'admin' OR"));
    assert!(!sql.contains("query.where"));
}

#[test]
fn bare_slot_substitutes_value_alone() {
    let sql = "SELECT * FROM t WHERE /* query.where */";
    let mut query = QueryComposer::<Postgres>::new(sql);
    query.push_where(admin_filter());

    let sql = query.compose().unwrap().sql().to_owned();

    assert!(sql.contains("role = 'admin'"));
    assert!(!sql.contains("query.where"));
}

#[test]
fn order_by_slot_before_static_list() {
    let sql = "SELECT * FROM t ORDER BY /* query.order_by , */ id";

    let mut with_order_by = QueryComposer::<Postgres>::new(sql);
    with_order_by.push_order_by(OrderByClause::parse("priority desc").unwrap());
    let sql_with = with_order_by.compose().unwrap().sql().to_owned();
    assert!(sql_with.contains("priority DESC , id"));

    let without_order_by = QueryComposer::<Postgres>::new(sql);
    let sql_without = without_order_by.compose().unwrap().sql().to_owned();
    assert!(!sql_without.contains("query.order_by"));
    assert!(!sql_without.contains(','));
    assert!(sql_without.contains("id"));
}

#[test]
fn multiple_slots_of_the_same_kind_all_substituted() {
    let sql = "SELECT * FROM t WHERE 1 = 1 /* query.where AND */ /* query.where AND */";
    let mut query = QueryComposer::<Postgres>::new(sql);
    query.push_where(admin_filter());

    let sql = query.compose().unwrap().sql().to_owned();

    assert_eq!(sql.matches("role = 'admin' AND").count(), 2);
    assert!(!sql.contains("query.where"));
}

#[test]
fn composer_shifts_filter_placeholders_past_base_binds() {
    let sql = "SELECT * FROM t WHERE tenant = $1 /* query.where AND */";
    let mut query = QueryComposer::<Postgres>::new(sql);
    query.bind_value(Value::text("acme")).push_where(
        WhereClause::new("name = $1 AND score > $2")
            .bind_value(Value::text("alice"))
            .bind_value(Value::from(90i64)),
    );

    let statement = query.compose().unwrap();
    let (sql, values) = (statement.sql(), values(&statement));

    assert!(sql.contains("name = $2 AND score > $3 AND"));
    assert_eq!(
        values,
        vec![
            Value::String("acme".into()),
            Value::String("alice".into()),
            Value::Int(90),
        ]
    );
}

#[test]
fn order_by_never_contributes_bind_values() {
    let sql = "SELECT id FROM users WHERE id = $1 /* query.where AND */ ORDER BY /* query.order_by , */ id LIMIT $2 OFFSET $3";
    let mut query = QueryComposer::<Postgres>::new(sql);
    query
        .bind_value(Value::text("007"))
        .bind_value(Value::from(0i64))
        .bind_value(Value::from(10i64))
        .push_order_by(OrderByClause::parse("rank desc").unwrap());

    let statement = query.compose().unwrap();
    let (sql, values) = (statement.sql(), values(&statement));

    assert!(sql.contains("rank DESC , id"));
    assert_eq!(
        values,
        vec![Value::String("007".into()), Value::Int(0), Value::Int(10)]
    );
}

#[test]
fn composer_zero_offset_leaves_filter_placeholders_unchanged() {
    let sql = "SELECT * FROM t WHERE 1 = 1 /* query.where AND */";
    let mut query = QueryComposer::<Postgres>::new(sql);
    query.push_where(
        WhereClause::new("name = $1 AND score > $2")
            .bind_value(Value::text("alice"))
            .bind_value(Value::from(90i64)),
    );

    let statement = query.compose().unwrap();
    let (sql, values) = (statement.sql(), values(&statement));

    assert!(sql.contains("name = $1 AND score > $2 AND"));
    assert_eq!(values, vec![Value::String("alice".into()), Value::Int(90)]);
}

#[test]
fn composer_leaves_non_matching_comments_untouched() {
    let sql = "SELECT 1 /* regular comment */ FROM t WHERE TRUE /* query.where AND */";
    let mut query = QueryComposer::<Postgres>::new(sql);
    query.push_where(admin_filter());

    let sql = query.compose().unwrap().sql().to_owned();

    assert!(sql.contains("/* regular comment */"));
    assert!(sql.contains("role = 'admin' AND"));
}

#[test]
fn unknown_slot_name_dropped_entirely() {
    let sql = "SELECT 1 FROM t WHERE TRUE /* query.unknown AND */";
    let query = QueryComposer::<Postgres>::new(sql);

    let sql = query.compose().unwrap().sql().to_owned();

    assert!(!sql.contains("query.unknown"));
    assert!(!sql.contains("AND"));
}

#[test]
fn no_slots_present_leaves_sql_untouched() {
    let sql = "SELECT * FROM t WHERE id = $1";
    let mut query = QueryComposer::<Postgres>::new(sql);
    query.bind_value(Value::from(1i64));

    let statement = query.compose().unwrap();
    let (rendered, values) = (statement.sql(), values(&statement));

    assert_eq!(rendered, sql);
    assert_eq!(values, vec![Value::Int(1)]);
}

#[test]
fn composer_index_based_numbering_survives_placeholders_declared_after_the_marker_in_text() {
    let sql = "SELECT * FROM collection \
               WHERE /* query.where AND */ TRUE \
               ORDER BY /* query.order_by , */ collection_id \
               LIMIT $1 OFFSET $2";

    let mut query = QueryComposer::<Postgres>::new(sql);
    query
        .bind_value(Value::from(50i64)) // take -> $1
        .bind_value(Value::from(0i64)) // skip -> $2
        .push_where(WhereClause::new("status = $1").bind_value(Value::text("ACTIVE")))
        .push_order_by(OrderByClause::parse("rank desc").unwrap());

    let statement = query.compose().unwrap();
    let (sql, values) = (statement.sql(), values(&statement));

    assert!(sql.contains("WHERE status = $3 AND TRUE"));
    assert!(sql.contains("ORDER BY rank DESC , collection_id"));
    assert!(sql.contains("LIMIT $1 OFFSET $2"));
    assert_eq!(
        values,
        vec![
            Value::Int(50),
            Value::Int(0),
            Value::String("ACTIVE".into())
        ]
    );
}

#[test]
fn order_by_splices_through_composer() {
    let sql = "SELECT * FROM t ORDER BY /* query.order_by , */ id";
    let order_by = OrderByClause::parse("rank desc").unwrap();

    let mut query = QueryComposer::<Postgres>::new(sql);
    query.push_order_by(order_by);

    let statement = query.compose().unwrap();
    let (sql, values) = (statement.sql(), values(&statement));

    assert!(sql.contains("rank DESC , id"));
    assert!(values.is_empty());
}

#[test]
fn build_produces_a_query_with_the_composed_sql() {
    let sql = "SELECT * FROM t WHERE /* query.where AND */ TRUE";
    let mut query = QueryComposer::<Postgres>::new(sql);
    query.push_where(admin_filter());

    let built = query.compose().unwrap();

    assert!(built.sql().contains("role = 'admin' AND TRUE"));
}

fn rank_cursor() -> Cursor {
    let order_by = OrderByClause::parse("rank desc, id asc").unwrap();
    Cursor::new(order_by)
        .after(vec![Value::Int(42), Value::Int(7)])
        .unwrap()
}

#[test]
fn cursor_alone_supplies_its_own_order_by() {
    let sql = "SELECT * FROM t WHERE /* query.where AND */ TRUE ORDER BY /* query.order_by , */ id";
    let mut query = QueryComposer::<Postgres>::new(sql);
    query.with_cursor(rank_cursor());

    let statement = query.compose().unwrap();
    let (sql, values) = (statement.sql(), values(&statement));

    assert!(sql.contains("WHERE (rank < $1) OR (rank = $1 AND id > $2) AND TRUE"));
    assert!(sql.contains("ORDER BY rank DESC, id ASC , id"));
    assert_eq!(values, vec![Value::Int(42), Value::Int(7)]);
}

#[test]
fn cursor_with_matching_order_by_is_accepted() {
    let sql = "SELECT * FROM t WHERE /* query.where AND */ TRUE ORDER BY /* query.order_by , */ id";
    let mut query = QueryComposer::<Postgres>::new(sql);
    query
        .with_cursor(rank_cursor())
        .push_order_by(OrderByClause::parse("rank desc, id asc").unwrap());

    assert!(query.compose().is_ok());
}

#[test]
fn cursor_with_mismatched_order_by_is_rejected() {
    let sql = "SELECT * FROM t WHERE /* query.where AND */ TRUE ORDER BY /* query.order_by , */ id";
    let mut query = QueryComposer::<Postgres>::new(sql);
    query
        .with_cursor(rank_cursor())
        .push_order_by(OrderByClause::parse("id asc").unwrap());

    assert!(matches!(
        query.compose().unwrap_err(),
        Error::CursorMismatch
    ));
}

#[test]
fn cursor_and_filter_are_combined_with_and() {
    let sql = "SELECT * FROM t WHERE /* query.where AND */ TRUE";
    let mut query = QueryComposer::<Postgres>::new(sql);
    query
        .push_where(WhereClause::new("status = $1").bind_value(Value::text("ACTIVE")))
        .with_cursor(rank_cursor());

    let statement = query.compose().unwrap();
    let (sql, values) = (statement.sql(), values(&statement));

    assert!(
        sql.contains("WHERE (status = $1) AND ((rank < $2) OR (rank = $2 AND id > $3)) AND TRUE")
    );
    assert_eq!(
        values,
        vec![
            Value::String("ACTIVE".into()),
            Value::Int(42),
            Value::Int(7),
        ]
    );
}

#[test]
fn non_positional_binds_in_textual_order_not_base_then_fragments() {
    let sql = "SELECT id FROM users WHERE /* query.where AND */ tenant_id = ? ORDER BY /* query.order_by , */ id LIMIT ?";
    let mut query = QueryComposer::<Sqlite>::new(sql);
    query
        .bind_value(Value::text("acme"))
        .bind_value(Value::from(50i64))
        .push_where(WhereClause::new("(rank) > ($1)").bind_value(Value::from(10i64)))
        .with_cursor(rank_cursor());

    let statement = query.compose().unwrap();
    let (sql, values) = (statement.sql(), values(&statement));

    assert_eq!(
        sql,
        "SELECT id FROM users WHERE ((rank) > (?)) AND ((rank < ?) OR (rank = ? AND id > ?)) AND tenant_id = ? ORDER BY rank DESC, id ASC , id LIMIT ?"
    );
    assert_eq!(
        values,
        vec![
            Value::Int(10),
            Value::Int(42),
            Value::Int(42),
            Value::Int(7),
            Value::String("acme".into()),
            Value::Int(50),
        ]
    );
}

#[test]
fn positional_keeps_numbering_and_declaration_order() {
    let sql = "SELECT id FROM users WHERE /* query.where AND */ tenant_id = $1 ORDER BY /* query.order_by , */ id LIMIT $2";
    let mut query = QueryComposer::<Postgres>::new(sql);
    query
        .bind_value(Value::text("acme"))
        .bind_value(Value::from(50i64))
        .push_where(WhereClause::new("(rank) > ($1)").bind_value(Value::from(10i64)))
        .with_cursor(rank_cursor());

    let statement = query.compose().unwrap();
    let (sql, values) = (statement.sql(), values(&statement));

    assert_eq!(
        sql,
        "SELECT id FROM users WHERE ((rank) > ($3)) AND ((rank < $4) OR (rank = $4 AND id > $5)) AND tenant_id = $1 ORDER BY rank DESC, id ASC , id LIMIT $2"
    );
    assert_eq!(
        values,
        vec![
            Value::String("acme".into()),
            Value::Int(50),
            Value::Int(10),
            Value::Int(42),
            Value::Int(7),
        ]
    );
}

#[test]
fn mysql_markers_inside_quoting_and_comments_are_not_placeholders() {
    let sql = "SELECT `why?` FROM t # is ? a marker\nWHERE note = 'it\\'s ? here' AND /* query.where AND */ tenant = ?";
    let mut query = QueryComposer::<MySql>::new(sql);
    query
        .bind_value(Value::text("acme"))
        .push_where(WhereClause::new("rank > $1").bind_value(Value::from(10i64)));

    let statement = query.compose().unwrap();
    let (sql, values) = (statement.sql(), values(&statement));

    assert!(sql.contains("SELECT `why?` FROM t"));
    assert!(sql.contains("'it\\'s ? here'"));
    assert!(sql.contains("AND rank > ? AND tenant = ?"));
    assert_eq!(values, vec![Value::Int(10), Value::String("acme".into())]);
}

#[test]
fn numbered_placeholder_in_a_non_positional_base_is_rejected() {
    let sql = "SELECT * FROM t WHERE tenant = $1";
    let mut query = QueryComposer::<Sqlite>::new(sql);
    query.bind_value(Value::text("acme"));

    assert!(matches!(
        query.compose(),
        Err(Error::UnsupportedPlaceholder { number: 1 })
    ));
}

#[test]
fn a_base_query_with_more_placeholders_than_values_is_rejected() {
    let sql = "SELECT * FROM t WHERE tenant = $1 AND rank > $2";
    let mut query = QueryComposer::<Postgres>::new(sql);
    query.bind_value(Value::text("acme"));

    assert!(matches!(
        query.compose(),
        Err(Error::BindMismatch {
            placeholders: 2,
            arguments: 1
        })
    ));
}

#[test]
fn a_clause_with_no_slot_to_splice_it_into_is_rejected() {
    let sql = "SELECT * FROM t ORDER BY /* query.order_by , */ id";
    let mut query = QueryComposer::<Postgres>::new(sql);
    query.with_cursor(rank_cursor());

    assert!(matches!(
        query.compose(),
        Err(Error::MissingSlot { name: "where" })
    ));
}

#[test]
fn where_by_accumulates_across_multiple_calls() {
    let sql = "SELECT * FROM t WHERE /* query.where AND */ TRUE";
    let mut query = QueryComposer::<Postgres>::new(sql);
    query
        .push_where(WhereClause::new("tenant_id = $1").bind_value(Value::text("acme")))
        .push_where(WhereClause::new("status = $1").bind_value(Value::text("ACTIVE")));

    let statement = query.compose().unwrap();
    let (sql, values) = (statement.sql(), values(&statement));

    assert!(sql.contains("WHERE (tenant_id = $1) AND (status = $2) AND TRUE"));
    assert_eq!(
        values,
        vec![Value::String("acme".into()), Value::String("ACTIVE".into())]
    );
}

#[test]
fn push_order_accumulates_as_tie_breakers_in_call_order() {
    let sql = "SELECT * FROM t ORDER BY /* query.order_by , */ id";
    let mut query = QueryComposer::<Postgres>::new(sql);
    query
        .push_order_by(OrderByClause::parse("tenant_id asc").unwrap())
        .push_order_by(OrderByClause::parse("rank desc").unwrap());

    let sql = query.compose().unwrap().sql().to_owned();

    assert!(sql.contains("ORDER BY tenant_id ASC, rank DESC , id"));
}

#[test]
fn explicit_order_by_is_not_duplicated_by_a_matching_cursor() {
    let sql = "SELECT * FROM t WHERE /* query.where AND */ TRUE ORDER BY /* query.order_by , */ id";
    let mut query = QueryComposer::<Postgres>::new(sql);
    query
        .push_order_by(OrderByClause::parse("rank desc, id asc").unwrap())
        .with_cursor(rank_cursor());

    let sql = query.compose().unwrap().sql().to_owned();

    assert!(sql.contains("ORDER BY rank DESC, id ASC , id"));
    assert_eq!(sql.matches("rank DESC").count(), 1);
}

#[test]
fn bytes_bind_as_a_value() {
    let sql = "SELECT * FROM t WHERE /* query.where AND */ receipt = ?";
    let mut query = QueryComposer::<Sqlite>::new(sql);
    query
        .bind_value(Value::from(vec![0xDE_u8, 0xAD, 0xBE, 0xEF]))
        .push_where(WhereClause::new("rank > $1").bind_value(Value::from(10i64)));

    let statement = query.compose().unwrap();
    let (sql, values) = (statement.sql(), values(&statement));

    assert_eq!(sql, "SELECT * FROM t WHERE rank > ? AND receipt = ?");
    assert_eq!(
        values,
        vec![Value::Int(10), Value::Bytes(vec![0xDE, 0xAD, 0xBE, 0xEF])]
    );
}

#[test]
fn bind_accepts_a_type_value_cannot_hold() {
    let sql = "SELECT * FROM t WHERE /* query.where AND */ due = ?";
    let mut query = QueryComposer::<Sqlite>::new(sql);
    query
        .bind(17)
        .push_where(WhereClause::new("rank > $1").bind_value(Value::from(10i64)));

    let statement = query.compose().unwrap();

    assert_eq!(
        statement.sql(),
        "SELECT * FROM t WHERE rank > ? AND due = ?"
    );
    assert_eq!(statement.arguments()[0].value(), Some(&Value::Int(10)));
    assert_eq!(statement.arguments()[1].value(), None);
}

#[test]
fn an_opaque_argument_keeps_its_handle() {
    let sql = "SELECT * FROM t WHERE /* query.where AND */ due = ?";
    let mut query = QueryComposer::<Sqlite>::new(sql);
    query
        .bind(17)
        .push_where(WhereClause::new("rank > $1").bind_value(Value::from(10i64)));

    let statement = query.compose().unwrap();
    assert_eq!(statement.arguments()[1], QueryArgument::Opaque(17));
}

#[test]
fn an_empty_condition_is_dropped_wherever_it_stands() {
    let sql = "SELECT * FROM t WHERE /* query.where AND */ TRUE";
    let mut query = QueryComposer::<Postgres>::new(sql);
    query
        .push_where(WhereClause::default())
        .push_where(WhereClause::new("a = $1").bind_value(Value::from(1i64)))
        .push_where(WhereClause::default())
        .push_where(WhereClause::new("b = $1").bind_value(Value::from(2i64)));

    let statement = query.compose().unwrap();
    assert_eq!(
        statement.sql(),
        "SELECT * FROM t WHERE (a = $1) AND (b = $2) AND TRUE"
    );
    assert_eq!(values(&statement), vec![Value::Int(1), Value::Int(2)]);
}

#[test]
fn a_second_cursor_replaces_the_first() {
    let sql = "SELECT * FROM t WHERE /* query.where AND */ TRUE";
    let mut query = QueryComposer::<Postgres>::new(sql);
    let other = Cursor::new(OrderByClause::parse("id").unwrap())
        .after(vec![Value::Int(1)])
        .unwrap();
    query.with_cursor(rank_cursor()).with_cursor(other);
    assert_eq!(
        query.compose().unwrap().sql(),
        "SELECT * FROM t WHERE (id > $1) AND TRUE"
    );
}

#[test]
fn an_ordering_without_a_slot_is_refused_only_where_it_was_asked_for() {
    let sql = "SELECT * FROM t WHERE /* query.where AND */ TRUE ORDER BY rank DESC, id";
    let mut query = QueryComposer::<Postgres>::new(sql);
    query.with_cursor(rank_cursor());
    assert!(query.compose().is_ok());

    query.push_order_by(OrderByClause::parse("rank desc, id asc").unwrap());
    let error = query.compose().unwrap_err();
    assert_eq!(error, Error::MissingSlot { name: "order_by" });
    assert_eq!(
        error.message(),
        "a order_by clause was set, but the base query has no /* query.order_by */ slot"
    );
}

#[test]
fn a_fragment_that_reaches_past_its_values_is_refused() {
    let sql = "SELECT * FROM t WHERE /* query.where AND */ tenant = $1";
    let mut query = QueryComposer::<Postgres>::new(sql);
    query
        .bind_value(Value::text("acme"))
        .push_where(WhereClause::new("a = $2").bind_value(Value::from(1i64)));
    let error = query.compose().unwrap_err();
    assert_eq!(
        error,
        Error::BindMismatch {
            placeholders: 3,
            arguments: 2
        }
    );
    assert_eq!(error.message(), "query requires 3 value(s), but 2 are bound");
}

#[test]
fn a_placeholder_that_names_no_value_is_refused() {
    let sql = "SELECT * FROM t WHERE /* query.where AND */ TRUE";
    let mut query = QueryComposer::<Sqlite>::new(sql);
    query.push_where(WhereClause::new("a = $0 AND b = $1").bind_value(Value::from(1i64)));
    assert_eq!(
        query.compose().unwrap_err(),
        Error::BindMismatch {
            placeholders: 0,
            arguments: 1
        }
    );
}

#[test]
fn errors_describe_themselves() {
    assert_eq!(
        Error::UnsupportedPlaceholder { number: 1 }.message(),
        "base query uses the numbered placeholder $1, but this dialect's is `?`"
    );
    let error = Error::from(OrderByClause::parse("a,").unwrap_err());
    assert_eq!(error.message(), "empty order_by term in `a,`");
    let error = Error::from(Cursor::parse("!").unwrap_err());
    assert_eq!(error.message(), "cursor token is not valid base64");
}

fn told<DB: QueryDialect>(sql: &str) -> QueryStatement {
    let cursor = Cursor::new(OrderByClause::parse("rank desc, id").unwrap())
        .after(vec![Value::Int(5), Value::Int(42)])
        .unwrap();
    let mut query = QueryComposer::<DB>::new(sql);
    query
        .bind_value(Value::text("acme"))
        .bind_value(Value::Int(10))
        .push_where(WhereClause::new("note = '$1' OR level > $1").bind_value(Value::Int(3)))
        .with_cursor(cursor);
    query.compose().unwrap()
}

#[test]
fn a_query_composes_alike_in_both_spellings() {
    let counted = told::<Postgres>(
        "SELECT /* query.where AND */ tenant = $1, '?' LIMIT $2 /* query.order_by */",
    );
    let bare = "SELECT /* query.where AND */ tenant = ?, '?' LIMIT ? /* query.order_by */";
    assert_eq!(
        counted.sql(),
        "SELECT (note = '$1' OR level > $3) AND ((rank < $4) OR (rank = $4 AND id > $5)) AND \
         tenant = $1, '?' LIMIT $2 rank DESC, id ASC"
    );
    let own = values(&counted);
    let named: Vec<Value> = [3, 4, 4, 5, 1, 2].iter().map(|n: &usize| own[n - 1].clone()).collect();
    for statement in [told::<Sqlite>(bare), told::<MySql>(bare)] {
        assert_eq!(
            statement.sql(),
            "SELECT (note = '$1' OR level > ?) AND ((rank < ?) OR (rank = ? AND id > ?)) AND \
             tenant = ?, '?' LIMIT ? rank DESC, id ASC"
        );
        assert_eq!(values(&statement), named);
    }
}

#[test]
fn a_copied_statement_is_the_same() {
    let mut query = QueryComposer::<Postgres>::new("SELECT $1, $2");
    query.bind_value(Value::Int(1)).bind(9);
    let statement = query.compose().unwrap();
    assert_eq!(statement.clone(), statement);
}

#[test]
fn a_top_level_or_stays_inside_the_base_condition() {
    let sql = "
    SELECT id, tenant_id, status, rank, receipt
      FROM orders
     WHERE /* query.where AND */ tenant_id = ?
     ORDER BY /* query.order_by , */ id
     LIMIT ?
";
    let mut query = QueryComposer::<Sqlite>::new(sql);
    query
        .bind_value(Value::text("acme"))
        .bind_value(Value::Int(10))
        .push_where(
            WhereClause::new("status = $1 OR rank > $2")
                .bind_value(Value::text("SHIPPED"))
                .bind_value(Value::Int(35)),
        );
    let statement = query.compose().unwrap();
    assert!(
        statement.sql().contains("WHERE (status = ? OR rank > ?) AND tenant_id = ?"),
        "{}",
        statement.sql()
    );
    assert_eq!(
        values(&statement),
        [Value::text("SHIPPED"), Value::Int(35), Value::text("acme"), Value::Int(10)]
    );
}

fn spliced<DB: QueryDialect>(condition: &str) -> String {
    let mut query = QueryComposer::<DB>::new("/* query.where AND */ x");
    query.push_where(WhereClause::new("")).push_where(WhereClause::new(condition));
    let statement = query.compose().unwrap();
    statement.sql().strip_suffix(" AND x").unwrap().to_owned()
}

#[test]
fn only_an_or_outside_everything_is_enclosed() {
    for split in [
        "a or b",
        "a\nOr\tb",
        "(a) OR (b)",
        "(a)OR(b)",
        "a = 1OR b",
        "'('OR b",
        "a) OR (b",
        "a /* ( */ OR b",
        "ü OR b",
    ] {
        assert_eq!(spliced::<Postgres>(split), format!("({split})"));
    }
    for whole in [
        "a AND b",
        "(a OR b)",
        "f(a OR b) AND (c OR (d OR e))",
        "a = ' OR '",
        "\" OR \" = 1",
        "a /* OR */ = b",
        "a -- OR\n = b",
        "a = $$ OR $$",
        "floor = 1 AND order_no = 2 AND oré = 3 AND éor = 4 AND a$or = 5 AND or_1 = 6",
    ] {
        assert_eq!(spliced::<Postgres>(whole), whole);
    }
}

#[test]
fn each_dialect_reads_its_own_quotes() {
    assert_eq!(spliced::<MySql>("`a OR b` = 1"), "`a OR b` = 1");
    assert_eq!(spliced::<Postgres>("`a OR b` = 1"), "(`a OR b` = 1)");
    assert_eq!(spliced::<Sqlite>("[a OR b] = 1"), "[a OR b] = 1");
    assert_eq!(spliced::<MySql>("a = 'x\\' (' OR b"), "(a = 'x\\' (' OR b)");
    assert_eq!(spliced::<MySql>("a # OR\n = 1"), "a # OR\n = 1");
}

#[test]
fn several_conditions_are_enclosed_once() {
    let mut query = QueryComposer::<Postgres>::new("/* query.where AND */ x");
    query
        .push_where(WhereClause::new("a OR b"))
        .push_where(WhereClause::new("c OR d"));
    assert_eq!(query.compose().unwrap().sql(), "(a OR b) AND (c OR d) AND x");
}
