use sqlx_query::columns::Columns;
use sqlx_query::composer::clause::WhereClause;
use sqlx_query::composer::order::{OrderClause, OrderClauseError, OrderDirection, OrderKey};
use sqlx_query::composer::value::{Probe, Value};

fn text(text: &str) -> Value {
    Value::text(text)
}

#[test]
fn order_parses_default_direction() {
    let order_by = OrderClause::parse("rank").unwrap();
    assert_eq!(
        order_by.keys(),
        [OrderKey {
            column: "rank".into(),
            direction: OrderDirection::Asc
        }]
    );
}

#[test]
fn order_parses_explicit_direction_case_insensitively() {
    let order_by = OrderClause::parse("rank DESC, created asc").unwrap();
    assert_eq!(
        order_by.keys(),
        [
            OrderKey {
                column: "rank".into(),
                direction: OrderDirection::Desc
            },
            OrderKey {
                column: "created".into(),
                direction: OrderDirection::Asc
            },
        ]
    );
}

#[test]
fn order_empty_string_parses_to_empty_order_by() {
    let order_by = OrderClause::parse("").unwrap();
    assert_eq!(order_by, OrderClause::default());
    assert_eq!(order_by.sql(), "");
}

#[test]
fn order_rejects_invalid_direction() {
    let err = OrderClause::parse("rank sideways").unwrap_err();
    assert_eq!(
        err,
        OrderClauseError::InvalidDirection {
            field: "rank".into(),
            direction: "sideways".into()
        }
    );
    assert_eq!(
        err.message(),
        "invalid sort direction `sideways` for field `rank`"
    );
}

#[test]
fn order_rejects_empty_term() {
    let err = OrderClause::parse("rank,,created").unwrap_err();
    assert_eq!(err, OrderClauseError::EmptyTerm("rank,,created".into()));
    assert_eq!(err.message(), "empty order_by term in `rank,,created`");
}

#[test]
fn order_resolve_renames_fields_against_allow_list() {
    let columns = Columns::new().with("rank", "rank").with("created", "created_at");
    let order_by = OrderClause::parse("created desc, rank")
        .unwrap()
        .resolve(&columns)
        .unwrap();
    assert_eq!(order_by.sql(), "created_at DESC, rank ASC");
}

#[test]
fn order_resolve_fails_closed_on_unknown_field() {
    let columns = Columns::new().with("rank", "rank");
    let err = OrderClause::parse("internal_notes")
        .unwrap()
        .resolve(&columns)
        .unwrap_err();
    assert_eq!(err, OrderClauseError::UnknownField("internal_notes".into()));
    assert_eq!(err.message(), "unknown order_by field `internal_notes`");
}

#[test]
fn then_appends_as_a_tie_breaker_not_commutatively() {
    let tenant_first = OrderClause::parse("tenant_id asc")
        .unwrap()
        .then(OrderClause::parse("rank desc").unwrap());
    assert_eq!(tenant_first.sql(), "tenant_id ASC, rank DESC");

    let rank_first = OrderClause::parse("rank desc")
        .unwrap()
        .then(OrderClause::parse("tenant_id asc").unwrap());
    assert_eq!(rank_first.sql(), "rank DESC, tenant_id ASC");
}

#[test]
fn a_third_word_makes_a_term_empty() {
    assert_eq!(
        OrderClause::parse(" rank asc nulls ").unwrap_err(),
        OrderClauseError::EmptyTerm("rank asc nulls".into())
    );
    assert_eq!(OrderClause::parse("a, b ,c").unwrap().keys().len(), 3);
}

#[test]
fn and_shifts_the_second_clauses_placeholders_past_the_first() {
    let a = WhereClause::new("status = $1").bind_value(text("ACTIVE"));
    let b = WhereClause::new("rank > $1 AND id < $2")
        .bind_value(Value::from(42i64))
        .bind_value(Value::from(7i64));

    let combined = a.and(b);

    assert_eq!(combined.sql(), "(status = $1) AND (rank > $2 AND id < $3)");
    assert_eq!(
        combined.values(),
        &[
            Value::String("ACTIVE".into()),
            Value::Int(42),
            Value::Int(7),
        ]
    );
}

#[test]
fn and_with_no_values_on_either_side_needs_no_shift() {
    let a = WhereClause::new("deleted_at IS NULL");
    let b = WhereClause::new("archived = FALSE");

    let combined = a.and(b);

    assert_eq!(
        combined.sql(),
        "(deleted_at IS NULL) AND (archived = FALSE)"
    );
    assert!(combined.values().is_empty());
}

#[test]
fn or_combines_like_and_but_with_or() {
    let a = WhereClause::new("status = $1").bind_value(text("ACTIVE"));
    let b = WhereClause::new("rank > $1").bind_value(Value::from(42i64));

    let combined = a.or(b);

    assert_eq!(combined.sql(), "(status = $1) OR (rank > $2)");
    assert_eq!(
        combined.values(),
        &[Value::String("ACTIVE".into()), Value::Int(42)]
    );
}

#[test]
fn shift_moves_placeholders_past_the_offset() {
    let where_by = WhereClause::new("name = $1").bind_value(text("alice"));
    let shifted = where_by.shift(2);

    assert_eq!(shifted.sql(), "name = $3");
    assert_eq!(shifted.values(), &[Value::String("alice".into())]);
}

#[test]
fn a_clause_is_shifted_past_the_highest_number_not_the_count() {
    let a = WhereClause::new("a = $1 OR b = $1").bind_value(Value::from(true));
    let b = WhereClause::new("c = $1").bind_value(Value::from(3u8));
    assert_eq!(a.and(b).sql(), "(a = $1 OR b = $1) AND (c = $2)");
}

#[test]
fn values_come_from_what_they_hold() {
    assert_eq!(Value::from(-1i8), Value::Int(-1));
    assert_eq!(Value::from(-2i16), Value::Int(-2));
    assert_eq!(Value::from(-3i32), Value::Int(-3));
    assert_eq!(Value::from(4u16), Value::Int(4));
    assert_eq!(Value::from(u32::MAX), Value::Int(4_294_967_295));
    assert_eq!(Value::from(vec![1u8, 2]), Value::Bytes(vec![1, 2]));
    assert_eq!(Value::from("x".to_owned()), Value::String("x".into()));
    assert_eq!(Value::optional(None), Value::Null);
    assert_eq!(Value::optional(Some(Value::Bool(true))), Value::Bool(true));
    assert_eq!(Value::bytes(&[7]), Value::Bytes(vec![7]));
}

#[test]
fn a_probe_takes_the_first_type_that_decodes() {
    let nothing = || Probe {
        null: false,
        int64: None,
        int32: None,
        int16: None,
        float64: None,
        float32: None,
        boolean: None,
        timestamp: None,
        uuid: None,
        text: None,
        bytes: None,
    };
    assert_eq!(nothing().value(), None);
    let both = Probe {
        text: Some("a".into()),
        bytes: Some(vec![97]),
        ..nothing()
    };
    assert_eq!(both.value(), Some(Value::String("a".into())));
    let small = Probe {
        int16: Some(-5),
        ..nothing()
    };
    assert_eq!(small.value(), Some(Value::Int(-5)));
    let null = Probe {
        null: true,
        int64: Some(1),
        ..nothing()
    };
    assert_eq!(null.value(), Some(Value::Null));
}

#[test]
fn a_rendered_ordering_reads_back() {
    let order_by = OrderClause::parse("  rank  desc , v.created_at,größe ASC").unwrap();
    let sql = order_by.sql();
    assert_eq!(sql, "rank DESC, v.created_at ASC, größe ASC");
    assert_eq!(OrderClause::parse(&sql).unwrap(), order_by);
    let empty = OrderClause::parse("").unwrap();
    assert_eq!(OrderClause::parse(&empty.sql()).unwrap(), empty);
}
