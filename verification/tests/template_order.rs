use base64::engine::general_purpose::URL_SAFE_NO_PAD as BASE64;
use base64::Engine as _;
use sqlx_query::driver::Postgres;
use sqlx_query::template::cursor::Cursor;
use sqlx_query::template::error::Error;
use sqlx_query::template::keyset::Keyset;
use sqlx_query::template::lower;
use sqlx_query::template::mapping::{Column, ColumnType, Deciding, Mapping, QueryMapping};
use sqlx_query::template::predicate::Predicate;
use sqlx_query::template::query::QueryTemplate;
use sqlx_query::template::sort::{Direction, Sort, SortKey};
use sqlx_query::template::value::{Timestamp, Value};
use sqlx_query::text::label;

fn volumes() -> QueryMapping {
    QueryMapping::new()
        .key("id", ColumnType::Int)
        .column("title", ColumnType::Text)
        .add("readCount", Column::new("read_count", ColumnType::Int))
}

// Orderings.

#[test]
fn a_bare_field_is_ascending() {
    let sort = Sort::parse("title").unwrap();
    assert_eq!(sort.keys(), [SortKey::asc("title")]);
}

#[test]
fn directions_are_case_insensitive() {
    assert_eq!(
        Sort::parse("title DESC, id Asc").unwrap().keys(),
        [SortKey::desc("title"), SortKey::asc("id")]
    );
}

#[test]
fn an_absent_order_by_is_an_empty_sort_not_an_error() {
    assert!(Sort::parse("").unwrap().is_empty());
    assert!(Sort::parse("   ").unwrap().is_empty());
}

#[test]
fn malformed_elements_are_rejected() {
    for source in ["title,", "title asc desc", "title sideways", "a,,b"] {
        assert!(Sort::parse(source).is_err(), "accepted `{source}`");
    }
}

#[test]
fn a_repeated_field_collapses_to_its_first_occurrence() {
    let sort = Sort::parse("title asc, id, title desc").unwrap();

    assert_eq!(sort.keys(), [SortKey::asc("title"), SortKey::asc("id")]);
}

#[test]
fn appending_a_present_field_leaves_its_direction_alone() {
    let sort = Sort::parse("title asc, id desc").unwrap().asc("id");

    assert_eq!(sort.keys(), [SortKey::asc("title"), SortKey::desc("id")]);
}

#[test]
fn appending_an_absent_field_adds_it() {
    let sort = Sort::parse("title asc").unwrap().asc("id");

    assert_eq!(sort.keys(), [SortKey::asc("title"), SortKey::asc("id")]);
}

#[test]
fn collecting_from_keys_dedups_too() {
    let sort = Sort::from_keys(vec![SortKey::desc("id"), SortKey::asc("id")]);

    assert_eq!(sort.keys(), [SortKey::desc("id")]);
}

#[test]
fn rendering_quotes_columns_and_maps_aliases() {
    let sort = Sort::parse("readCount desc, id").unwrap();
    let fragment = sort.to_fragment::<Postgres, _>(&volumes()).unwrap();

    assert_eq!(fragment.preview(), r#""read_count" DESC, "id" ASC"#);
}

#[test]
fn sort_an_unknown_field_is_rejected() {
    let error = Sort::parse("salary")
        .unwrap()
        .to_fragment::<Postgres, _>(&volumes())
        .unwrap_err();

    assert!(matches!(error, Error::UnknownColumn(field) if field == "salary"));
}

#[test]
fn display_is_canonical() {
    assert_eq!(
        Sort::parse("Title   DESC ,  id ASC").unwrap().text(),
        "Title desc, id asc"
    );
}

#[test]
fn the_canonical_spelling_reads_back() {
    let sort = Sort::parse("  b.c DESC,a , d\u{a0}e asc").unwrap();
    assert_eq!(Sort::parse(&sort.text()).unwrap(), sort);
    assert_eq!(Sort::new().text(), "");
}

// Mappings.

#[test]
fn an_empty_table_resolves_nothing() {
    assert!(QueryMapping::new().resolve(&["id"]).is_none());
}

#[test]
fn a_field_may_be_spelled_differently_from_its_column() {
    let table = QueryMapping::new().add("readCount", Column::new("read_count", ColumnType::Int));

    assert_eq!(table.resolve(&["readCount"]).unwrap().name, "read_count");
    assert!(table.resolve(&["read_count"]).is_none());
}

#[test]
fn a_key_may_also_be_aliased() {
    let table = QueryMapping::new().add("id", Column::key("volume_id", ColumnType::Int));
    let column = table.resolve(&["id"]).unwrap();

    assert_eq!(column.name, "volume_id");
    assert!(column.unique);
}

#[test]
fn a_nested_path_resolves_by_its_dotted_name() {
    let table =
        QueryMapping::new().add("author.name", Column::new("author_name", ColumnType::Text));

    assert_eq!(
        table.resolve(&["author", "name"]).unwrap().name,
        "author_name"
    );
    assert!(table.resolve(&["author"]).is_none());
}

#[test]
fn mapping_only_key_marks_a_column_unique() {
    let table = QueryMapping::new()
        .key("id", ColumnType::Int)
        .column("title", ColumnType::Text);

    assert!(table.resolve(&["id"]).unwrap().unique);
    assert!(!table.resolve(&["title"]).unwrap().unique);
}

// Values.

fn now() -> Timestamp {
    Timestamp {
        seconds: 1_700_000_000,
        nanos: 5,
    }
}

#[test]
fn every_variant_reports_its_column_type() {
    assert_eq!(Value::Bool(true).ty(), ColumnType::Bool);
    assert_eq!(Value::Int(1).ty(), ColumnType::Int);
    assert_eq!(Value::Float(1.0f64.to_bits()).ty(), ColumnType::Float);
    assert_eq!(Value::Text("x".into()).ty(), ColumnType::Text);
    assert_eq!(Value::Bytes(vec![1]).ty(), ColumnType::Bytes);
    assert_eq!(Value::Timestamp(now()).ty(), ColumnType::Timestamp);
}

// Page tokens.

fn sort() -> Sort {
    Sort::parse("title desc, id").unwrap()
}

#[test]
fn the_first_page_has_an_empty_token() {
    let cursor = Cursor::parse("").unwrap();

    assert!(cursor.is_empty());
    assert_eq!(cursor.as_str(), "");
}

#[test]
fn an_empty_token_parses_to_the_first_page() {
    assert!(Cursor::parse("").unwrap().is_empty());
    assert!(Cursor::parse("   ").unwrap().is_empty());
}

#[test]
fn a_position_round_trips_through_a_token() {
    let values = [Value::Text("Dune".into()), Value::Int(4711)];
    let cursor = Cursor::new(&sort()).after_values(&values).unwrap();

    let parsed = Cursor::parse(cursor.as_str()).unwrap();

    assert_eq!(parsed.keys(), cursor.keys());
    assert_eq!(parsed.sort(), &sort());
}

#[test]
fn every_value_type_round_trips() {
    let sort = Sort::parse("a, b, c, d, e, f").unwrap();
    let values = [
        Value::Bool(true),
        Value::Int(-9_000_000_000),
        Value::Float(1.5f64.to_bits()),
        Value::Text("caf\u{e9} \u{1f600}".into()),
        Value::Bytes(vec![0, 255, 7]),
        Value::Timestamp(Timestamp {
            seconds: 1_700_000_000,
            nanos: 123_456_789,
        }),
    ];

    let cursor = Cursor::new(&sort).after_values(&values).unwrap();
    let parsed = Cursor::parse(cursor.as_str()).unwrap();

    let round_tripped: Vec<Value> = parsed.keys().iter().map(|k| k.value.clone()).collect();
    assert_eq!(round_tripped, values);
}

#[test]
fn timestamps_outside_the_nanosecond_range_survive() {
    let sort = Sort::parse("at").unwrap();
    let far = || {
        Value::Timestamp(Timestamp {
            seconds: 99_999_999_999,
            nanos: 0,
        })
    };

    let cursor = Cursor::new(&sort).after_values(&[far()]).unwrap();
    let parsed = Cursor::parse(cursor.as_str()).unwrap();

    assert_eq!(parsed.keys()[0].value, far());
}

#[test]
fn the_recorded_direction_survives() {
    let cursor = Cursor::new(&sort())
        .after_values(&[Value::Text("x".into()), Value::Int(1)])
        .unwrap();
    let parsed = Cursor::parse(cursor.as_str()).unwrap();

    assert_eq!(parsed.keys()[0].key.direction, Direction::Desc);
    assert_eq!(parsed.keys()[1].key.direction, Direction::Asc);
}

#[test]
fn a_value_count_that_does_not_match_the_sort_is_rejected() {
    let error = Cursor::new(&sort())
        .after_values(&[Value::Int(1)])
        .unwrap_err();

    assert!(
        error.message().contains("2 keys but 1 values"),
        "{error:?}"
    );
}

#[test]
fn malformed_tokens_are_rejected() {
    let good = Cursor::new(&sort())
        .after_values(&[Value::Text("x".into()), Value::Int(1)])
        .unwrap()
        .as_str()
        .to_owned();

    let truncated = &good[..good.len() - 4];
    assert!(Cursor::parse(truncated).is_err(), "accepted a truncation");

    assert!(
        Cursor::parse("not base64!!").is_err(),
        "accepted non-base64"
    );

    let wrong_version = BASE64.encode([99_u8, 0, 0, 0, 0, 1, b'a']);
    let error = Cursor::parse(&wrong_version).unwrap_err();
    assert!(error.message().contains("version 99"), "{error:?}");
}

#[test]
fn cursor_the_first_page_has_no_condition() {
    let fragment = Cursor::parse("")
        .unwrap()
        .to_fragment::<Postgres>()
        .unwrap();

    assert!(fragment.is_empty());
}

#[test]
fn tokens_are_url_safe() {
    let sort = Sort::parse("blob").unwrap();
    let value = Value::Bytes((0..=255).collect());

    let token = Cursor::new(&sort)
        .after_values(&[value])
        .unwrap()
        .as_str()
        .to_owned();

    assert!(
        token
            .chars()
            .all(|c| c.is_ascii_alphanumeric() || c == '-' || c == '_'),
        "{token}"
    );
}

#[test]
fn an_instant_that_no_calendar_covers_is_rejected() {
    let sort = Sort::parse("at").unwrap();
    let at = |seconds: i64, nanos: u32| {
        let value = Value::Timestamp(Timestamp { seconds, nanos });
        let cursor = Cursor::new(&sort).after_values(&[value]).unwrap();
        Cursor::parse(cursor.as_str())
    };
    assert!(at(0, 999_999_999).is_ok());
    assert!(at(59, 1_999_999_999).is_ok());
    assert!(at(0, 1_000_000_000).is_err());
    assert!(at(i64::MAX, 0).is_err());
}

// Keysets.

fn issued(order_by: &str) -> (Sort, Cursor) {
    let sort = Sort::parse(order_by).unwrap().asc("id");
    let cursor = Cursor::new(&sort)
        .after_values(&[Value::Text("Dune".into()), Value::Int(42)])
        .unwrap();
    (sort, cursor)
}

#[test]
fn keyset_the_first_page_has_no_condition() {
    let start = Cursor::new(&Sort::new());
    let keyset = Keyset::new(Sort::parse("title").unwrap(), start).unwrap();

    assert!(keyset.predicate().is_empty());
}

#[test]
fn a_token_from_a_different_order_is_refused() {
    let (_, cursor) = issued("title asc");

    let asked = Sort::parse("title desc").unwrap().asc("id");
    let error = Keyset::new(asked, cursor).unwrap_err();

    let message = error.message();
    assert!(message.contains("title asc"), "{message}");
    assert!(message.contains("title desc"), "{message}");
}

#[test]
fn an_absent_order_by_adopts_the_token_s_own() {
    let (issued, cursor) = issued("title desc");

    let keyset = Keyset::new(Sort::new(), cursor).unwrap();

    assert_eq!(keyset.sort(), &issued);
}

#[test]
fn the_order_by_and_the_condition_agree() {
    let (sort, cursor) = issued("title desc");
    let keyset = Keyset::new(sort, cursor).unwrap();

    assert_eq!(
        keyset.sort().keys().last().unwrap().field,
        keyset.cursor().keys().last().unwrap().key.field
    );
}

// Predicates.

fn seek_of(order_by: &str, values: &[Value]) -> Predicate {
    let sort = Sort::parse(order_by).unwrap().asc("id");
    let cursor = Cursor::new(&sort).after_values(values).unwrap();

    Keyset::new(sort, cursor).unwrap().predicate()
}

#[test]
fn an_empty_predicate_renders_nothing() {
    let fragment = Predicate::empty()
        .to_fragment::<Postgres, _>(&volumes())
        .unwrap();

    assert!(Predicate::empty().is_empty());
    assert!(fragment.is_empty());
}

#[test]
fn a_single_key_seeks_past_it() {
    let fragment = seek_of("", &[Value::Int(42)])
        .to_fragment::<Postgres, _>(&volumes())
        .unwrap();

    assert_eq!(fragment.preview(), r#"(("id" > ?))"#);
}

#[test]
fn mixed_directions_expand_into_a_chain() {
    let fragment = seek_of("title desc", &[Value::Text("Dune".into()), Value::Int(42)])
        .to_fragment::<Postgres, _>(&volumes())
        .unwrap();

    assert_eq!(
        fragment.preview(),
        r#"(("title" < ?) OR ("title" = ? AND "id" > ?))"#
    );
}

#[test]
fn an_ascending_sort_compares_upwards() {
    let fragment = seek_of("title", &[Value::Text("Dune".into()), Value::Int(42)])
        .to_fragment::<Postgres, _>(&volumes())
        .unwrap();

    assert!(fragment.preview().starts_with(r#"(("title" > ?)"#));
}

#[test]
fn a_sort_with_no_unique_column_cannot_paginate() {
    let sort = Sort::parse("title").unwrap();
    let cursor = Cursor::new(&sort)
        .after_values(&[Value::Text("Dune".into())])
        .unwrap();
    let keyset = Keyset::new(sort, cursor).unwrap();

    let error = keyset
        .predicate()
        .to_fragment::<Postgres, _>(&volumes())
        .unwrap_err();

    assert!(matches!(error, Error::NotUnique(_)), "{error:?}");
}

#[test]
fn predicate_an_unknown_field_is_rejected() {
    let error = seek_of("salary", &[Value::Int(1), Value::Int(2)])
        .to_fragment::<Postgres, _>(&volumes())
        .unwrap_err();

    assert!(matches!(error, Error::UnknownColumn(field) if field == "salary"));
}

#[test]
fn a_value_of_the_wrong_type_for_its_column_is_rejected() {
    let sort = Sort::parse("id").unwrap();
    let cursor = Cursor::new(&sort)
        .after_values(&[Value::Text("not an id".into())])
        .unwrap();
    let keyset = Keyset::new(sort, cursor).unwrap();

    let error = keyset
        .predicate()
        .to_fragment::<Postgres, _>(&volumes())
        .unwrap_err();

    assert!(error.message().contains("text"), "{error:?}");
}

// The whole of it.

#[test]
fn the_readme_example_is_real() {
    let filter = lower::parse("readCount > 100 && title.startsWith('D')").unwrap();
    let template = QueryTemplate::<Postgres>::parse(
        "SELECT id, title, read_count
       FROM volumes
      WHERE tenant_id = $1
        /* AND query.predicate */
      /* ORDER BY query.order */
      LIMIT $2",
    )
    .unwrap();
    let schema = volumes();
    let sort = Sort::parse("title desc").unwrap().asc("id");
    let cursor = Cursor::parse("").unwrap();
    let cursor = Keyset::new(sort.clone(), cursor).unwrap();

    let query = template
        .builder()
        .bind(Value::Int(7))
        .bind(Value::Int(50))
        .fill_with("predicate", lower::render(&filter, &schema))
        .fill_with("predicate", cursor.predicate().to_fragment(&schema))
        .fill_with("order", sort.to_fragment(&schema));
    assert_eq!(
        query.sql(),
        "SELECT id, title, read_count\n       FROM volumes\n      WHERE tenant_id = $1\n        \
         AND (\"read_count\" > $3 AND \"title\" LIKE $4 ESCAPE '!')\n      \
         ORDER BY \"title\" DESC, \"id\" ASC\n      LIMIT $2"
    );
    assert!(query.finish().is_ok());

    let next = Cursor::new(&sort)
        .after_values(&[Value::Text("Dune".into()), Value::Int(4711)])
        .unwrap();
    let resumed = Cursor::parse(next.as_str()).unwrap();
    let resumed = Keyset::new(sort.clone(), resumed).unwrap();

    let second = template
        .builder()
        .bind(Value::Int(7))
        .bind(Value::Int(50))
        .fill_with("predicate", lower::render(&filter, &schema))
        .fill_with("predicate", resumed.predicate().to_fragment(&schema))
        .fill_with("order", sort.to_fragment(&schema));
    assert_eq!(
        second.sql(),
        "SELECT id, title, read_count\n       FROM volumes\n      WHERE tenant_id = $1\n        \
         AND (\"read_count\" > $3 AND \"title\" LIKE $4 ESCAPE '!') \
         AND ((\"title\" < $5) OR (\"title\" = $6 AND \"id\" > $7))\n      \
         ORDER BY \"title\" DESC, \"id\" ASC\n      LIMIT $2"
    );
}

#[test]
fn a_closure_may_decide_what_is_visible() {
    for may in [false, true] {
        let visible = Deciding::new(move |path: &[&str]| match path {
            ["id"] => Some(Column::key("id", ColumnType::Int)),
            ["author", "salary"] if may => Some(Column::new("salary", ColumnType::Int)),
            _ => None,
        });
        assert_eq!(visible.resolve(&["id"]), Some(Column::key("id", ColumnType::Int)));
        assert_eq!(visible.resolve(&["author", "salary"]).is_some(), may);
        assert!(visible.resolve(&["salary"]).is_none());
        assert!(visible.resolve(&[]).is_none());

        let sort = Sort::parse("author.salary, id").unwrap();
        match sort.to_fragment::<Postgres, _>(&visible) {
            Ok(fragment) => {
                assert!(may);
                assert_eq!(fragment.preview(), r#""salary" ASC, "id" ASC"#);
            }
            Err(error) => {
                assert!(!may);
                assert_eq!(error, Error::UnknownColumn("author.salary".into()));
            }
        }
    }
}

#[test]
fn mappings_are_the_same_where_they_expose_the_same() {
    let one = volumes();
    let other = QueryMapping::new()
        .add("readCount", Column::new("reads", ColumnType::Text))
        .column("title", ColumnType::Text)
        .add("readCount", Column::new("read_count", ColumnType::Int))
        .key("id", ColumnType::Int);
    assert!(one == other);
    assert!(one.clone() == one);
    assert!(one != other.clone().key("title", ColumnType::Text));
    assert!(one != other.clone().column("extra", ColumnType::Bool));
    assert!(other.column("extra", ColumnType::Bool) != one);
    assert!(one != QueryMapping::new());
}

#[test]
fn a_column_is_read_under_its_label() {
    assert_eq!(label("v.created_at"), "created_at");
    assert_eq!(label("a.b.c"), "c");
    assert_eq!(label("id"), "id");
    assert_eq!(label("id."), "");
    assert_eq!(label(""), "");
}

#[test]
fn copied_positions_are_the_same() {
    let sort = Sort::parse("title desc, id").unwrap();
    let cursor = Cursor::new(&sort)
        .after_values(&[Value::Text("Dune".into()), Value::Int(42)])
        .unwrap();
    assert_eq!(cursor.clone(), cursor);
    let keyset = Keyset::new(sort, cursor).unwrap();
    assert_eq!(keyset.clone(), keyset);
    let predicate = keyset.predicate();
    assert_eq!(predicate.clone(), predicate);
}
