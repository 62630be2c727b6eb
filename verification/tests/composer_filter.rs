use sqlx_query::columns::Columns;
use sqlx_query::composer::filter::{FilterClause, FilterClauseError};
use sqlx_query::composer::value::Value;

fn parsed(filter: &str) -> String {
    FilterClause::parse(filter)
        .expect("condition parses")
        .to_where_clause()
        .sql()
        .to_owned()
}

fn refuses(filter: &str) -> bool {
    matches!(
        FilterClause::parse(filter),
        Err(FilterClauseError::Parse(_) | FilterClauseError::Unsupported(_))
    )
}

fn columns(pairs: &[(&str, &str)]) -> Columns {
    let mut columns = Columns::new();
    for (field, column) in pairs {
        columns = columns.with(field, column);
    }
    columns
}

#[test]
fn a_comparison_reads_with_a_placeholder() {
    assert_eq!(parsed("rank > 3"), "(rank) > ($1)");
}

#[test]
fn booleans_join_with_full_parenthesization() {
    assert_eq!(
        parsed("status == 'live' && rank > 3"),
        "((status) = ($1)) AND ((rank) > ($2))"
    );
}

#[test]
fn a_field_may_be_selected_through() {
    assert_eq!(parsed("v.created_at > 3"), "(v.created_at) > ($1)");
}

#[test]
fn null_is_compared_with_is_rather_than_equals() {
    assert_eq!(parsed("deleted_at == null"), "deleted_at IS NULL");
    assert_eq!(parsed("deleted_at != null"), "deleted_at IS NOT NULL");
    assert_eq!(parsed("null == deleted_at"), "deleted_at IS NULL");
}

#[test]
fn in_reads_as_in_a_list() {
    let where_by = FilterClause::parse("status in ['live', 'draft']")
        .unwrap()
        .to_where_clause();

    assert_eq!(where_by.sql(), "status IN ($1, $2)");
    assert_eq!(
        where_by.values(),
        &[Value::String("live".into()), Value::String("draft".into())]
    );
}

#[test]
fn not_keeps_what_it_applies_to_together() {
    assert_eq!(
        parsed("!(a == 1 && b == 2)"),
        "NOT (((a) = ($1)) AND ((b) = ($2)))"
    );
}

#[test]
fn a_blank_filter_is_the_empty_one() {
    for blank in ["", "   ", "\n\t"] {
        let filter = FilterClause::parse(blank)
            .and_then(|filter| filter.resolve(&Columns::new()))
            .expect("a blank filter parses and resolves");

        assert!(filter.to_where_clause().is_empty(), "{blank:?}");
    }
    assert!(FilterClause::default().to_where_clause().is_empty());
}

#[test]
fn what_has_no_reading_as_a_condition_is_refused() {
    assert!(refuses("size(name) > 3"));
    assert!(refuses("name.size() > 3"));
    assert!(refuses("[1, 2].all(x, x > 0)"));
    assert!(refuses("{'a': 1}"));
    assert!(refuses("status =="));
    assert!(refuses("status == 'live'; DROP TABLE users"));
}

#[test]
fn resolve_renames_every_field_against_the_allow_list() {
    let filter = FilterClause::parse("status == 'live' && v.rank > 3")
        .expect("condition parses")
        .resolve(&columns(&[("status", "state"), ("v.rank", "v.rank_score")]))
        .expect("every field is named");

    assert_eq!(
        filter.to_where_clause().sql(),
        "((state) = ($1)) AND ((v.rank_score) > ($2))"
    );
}

#[test]
fn resolve_refuses_a_condition_naming_an_unoffered_field() {
    let refused = FilterClause::parse("status == 'live' && secret == 1")
        .expect("condition parses")
        .resolve(&columns(&[("status", "state")]));

    assert!(matches!(
        refused,
        Err(FilterClauseError::UnknownField(field)) if field == "secret"
    ));
}

#[test]
fn into_where_clause_binds_every_literal_in_order() {
    let where_by = FilterClause::parse("status == 'live' && rank > 3")
        .expect("condition parses")
        .to_where_clause();

    assert_eq!(
        where_by.sql(),
        "((status) = ($1)) AND ((rank) > ($2))"
    );
    assert_eq!(
        where_by.values(),
        &[Value::String("live".into()), Value::Int(3)]
    );
}

#[test]
fn string_methods_read_as_like() {
    let pattern = |filter: &str| {
        let where_by = FilterClause::parse(filter)
            .expect("condition parses")
            .to_where_clause();
        (
            where_by.sql().to_owned(),
            where_by.values().to_vec(),
        )
    };

    assert_eq!(
        pattern("name.startsWith('Gro')"),
        (
            "(name) LIKE $1 ESCAPE '!'".to_owned(),
            vec![Value::String("Gro%".into())]
        )
    );
    assert_eq!(
        pattern("name.endsWith('ies')").1,
        vec![Value::String("%ies".into())]
    );
    assert_eq!(
        pattern("name.contains('cer')").1,
        vec![Value::String("%cer%".into())]
    );
}

#[test]
fn a_like_pattern_matches_its_wildcards_literally() {
    let where_by = FilterClause::parse("code.startsWith('50%_off!')")
        .expect("condition parses")
        .to_where_clause();

    assert_eq!(where_by.values(), &[Value::String("50!%!_off!!%".into())]);
}

#[test]
fn a_string_method_combines_like_any_condition() {
    assert_eq!(
        parsed("name.startsWith('a') && rank > 3"),
        "((name) LIKE $1 ESCAPE '!') AND ((rank) > ($2))"
    );
}

#[test]
fn a_string_method_is_only_called_on_a_field_with_a_literal() {
    assert!(refuses("'abc'.startsWith('a')"));
    assert!(refuses("name.startsWith(other)"));
    assert!(refuses("name.startsWith(3)"));
    assert!(refuses("name.startsWith('a', 'b')"));
    assert!(refuses("startsWith(name, 'a')"));
}

#[test]
fn resolve_renames_the_field_a_method_is_called_on() {
    let filter = FilterClause::parse("title.startsWith('Gro')")
        .expect("condition parses")
        .resolve(&columns(&[("title", "display_name")]))
        .expect("the field is named");

    assert_eq!(
        filter.to_where_clause().sql(),
        "(display_name) LIKE $1 ESCAPE '!'"
    );
}

#[test]
fn resolve_refuses_a_method_on_an_unoffered_field() {
    let refused = FilterClause::parse("secret.startsWith('a')")
        .expect("condition parses")
        .resolve(&columns(&[("title", "display_name")]));

    assert!(matches!(
        refused,
        Err(FilterClauseError::UnknownField(field)) if field == "secret"
    ));
}

const NEW_YEAR: i64 = 1_767_225_600_000_000;

#[test]
fn timestamp_reads_as_a_timestamp_literal() {
    let where_by = FilterClause::parse("created_at > timestamp('2026-01-01T00:00:00Z')")
        .expect("condition parses")
        .to_where_clause();

    assert_eq!(where_by.sql(), "(created_at) > ($1)");
    assert_eq!(where_by.values(), &[Value::Timestamp(NEW_YEAR)]);
}

#[test]
fn a_timestamp_is_read_in_its_own_offset() {
    let where_by = FilterClause::parse("created_at == timestamp('2026-01-01T02:00:00+02:00')")
        .expect("condition parses")
        .to_where_clause();

    assert_eq!(where_by.values(), &[Value::Timestamp(NEW_YEAR)]);
}

#[test]
fn a_malformed_timestamp_is_an_invalid_literal() {
    assert!(matches!(
        FilterClause::parse("created_at > timestamp('yesterday')"),
        Err(FilterClauseError::InvalidLiteral(_))
    ));
}

#[test]
fn timestamp_reads_one_string_literal() {
    assert!(refuses("created_at > timestamp(other)"));
    assert!(refuses("created_at > timestamp(3)"));
    assert!(refuses("created_at > timestamp('a', 'b')"));
    assert!(refuses(
        "created_at > name.timestamp('2026-01-01T00:00:00Z')"
    ));
}

#[test]
fn uuid_reads_as_a_uuid_literal() {
    let where_by = FilterClause::parse("id == uuid('01234567-89ab-cdef-0123-456789abcdef')")
        .expect("condition parses")
        .to_where_clause();

    assert_eq!(where_by.sql(), "(id) = ($1)");
    assert_eq!(
        where_by.values(),
        &[Value::Uuid([
            0x01, 0x23, 0x45, 0x67, 0x89, 0xab, 0xcd, 0xef, 0x01, 0x23, 0x45, 0x67, 0x89, 0xab,
            0xcd, 0xef,
        ])]
    );
}

#[test]
fn a_malformed_uuid_is_an_invalid_literal() {
    assert!(matches!(
        FilterClause::parse("id == uuid('not-a-uuid')"),
        Err(FilterClauseError::InvalidLiteral(_))
    ));
}

#[test]
fn uuid_reads_one_string_literal() {
    assert!(refuses("id == uuid(other)"));
    assert!(refuses("id == uuid(3)"));
    assert!(refuses(
        "id == name.uuid('01234567-89ab-cdef-0123-456789abcdef')"
    ));
}

#[test]
fn an_unsigned_literal_that_does_not_fit_is_refused() {
    let error = FilterClause::parse("a == 18446744073709551615u").unwrap_err();
    assert_eq!(
        error,
        FilterClauseError::Unsupported(
            "unsigned literal 18446744073709551615 is too large for the signed integer a bind value carries"
                .into()
        )
    );
    let clause = FilterClause::parse("a == 7u").unwrap().to_where_clause();
    assert_eq!(clause.values(), &[Value::Int(7)]);
}

#[test]
fn errors_say_what_they_are_about() {
    let error = FilterClause::parse("size(name) > 3").unwrap_err();
    assert_eq!(
        error.message(),
        "``size` has no reading as a condition` has no reading as a condition"
    );
    let error = FilterClause::parse("a == b'x'").unwrap_err();
    assert_eq!(
        error,
        FilterClauseError::Unsupported("a bytes literal has no SQL spelling".into())
    );
    let error = FilterClause::parse("id == uuid('x')").unwrap_err();
    assert!(error.message().starts_with("`uuid(\"x\")` is not a UUID: "));
    let error = FilterClause::parse("at > timestamp('x')").unwrap_err();
    assert!(error
        .message()
        .starts_with("`timestamp(\"x\")` is not an RFC 3339 timestamp: "));
    let error = FilterClauseError::UnknownField("x".into());
    assert_eq!(error.message(), "unknown filter field `x`");
    assert!(matches!(
        FilterClause::parse("a in b"),
        Err(FilterClauseError::Unsupported(text)) if text == "`in` reads a list on its right"
    ));
}

#[test]
fn every_operator_has_its_spelling() {
    assert_eq!(parsed("a + 1 >= b * 2"), "((a) + ($1)) >= ((b) * ($2))");
    assert_eq!(parsed("a - 1 <= b / 2"), "((a) - ($1)) <= ((b) / ($2))");
    assert_eq!(parsed("a % 2 != 1 || -a < 3"), "(((a) % ($1)) <> ($2)) OR ((-(a)) < ($3))");
    assert_eq!(parsed("null == null"), "($1) = ($2)");
}

#[test]
fn resolving_keeps_the_values() {
    let filter = FilterClause::parse("a in [1, b, 'x'] && a.contains('y')").unwrap();
    let before = filter.to_where_clause();
    let after = filter
        .clone()
        .resolve(&columns(&[("a", "t.a"), ("b", "c")]))
        .unwrap()
        .to_where_clause();
    assert_eq!(before.values(), after.values());
    assert_eq!(
        after.sql(),
        "(t.a IN ($1, c, $2)) AND ((t.a) LIKE $3 ESCAPE '!')"
    );
}

#[test]
fn resolving_replaces_only_fields() {
    let filter = FilterClause::parse("v.rank > 3 && !(rank == 'rank') || note == null").unwrap();
    assert_eq!(
        filter.to_where_clause().sql(),
        "(((v.rank) > ($1)) AND (NOT ((rank) = ($2)))) OR (note IS NULL)"
    );
    let resolved = filter
        .resolve(&columns(&[("v.rank", "r"), ("rank", "t.rank_score"), ("note", "n")]))
        .unwrap()
        .to_where_clause();
    assert_eq!(
        resolved.sql(),
        "(((r) > ($1)) AND (NOT ((t.rank_score) = ($2)))) OR (n IS NULL)"
    );
    assert_eq!(resolved.values(), [Value::Int(3), Value::String("rank".into())]);
}

#[test]
fn the_first_unknown_field_is_reported() {
    let unknown = |filter: &str, known: &[(&str, &str)]| {
        FilterClause::parse(filter).unwrap().resolve(&columns(known)).unwrap_err()
    };
    let filter = "a == 1 && b.contains('x') && c in [d, 2]";
    for (known, field) in [
        (&[][..], "a"),
        (&[("a", "a"), ("c", "c")][..], "b"),
        (&[("a", "a"), ("b", "b"), ("d", "d")][..], "c"),
        (&[("a", "a"), ("b", "b"), ("c", "c")][..], "d"),
    ] {
        assert_eq!(unknown(filter, known), FilterClauseError::UnknownField(field.into()));
    }
}
