//! Orderings that a request asks for.

use sqlx_query::columns::Columns;
use sqlx_query::writer::error::Error;
use sqlx_query::writer::sort::{Sort, SortDirection, SortKey};

fn columns() -> Columns {
    Columns::new()
        .with("title", "title")
        .with("readCount", "read_count")
        .with("created", "v.created_at")
        .with("id", "id")
}

/// What the sort actually holds, which is the only thing that matters
/// before it is rendered.
fn keys(sort: &Sort) -> Vec<(String, SortDirection)> {
    sort.keys()
        .iter()
        .map(|key| (key.name.clone(), key.direction))
        .collect()
}

#[test]
fn a_field_on_its_own_is_ascending() {
    let sort = Sort::parse("title").unwrap();
    assert_eq!(keys(&sort), [("title".into(), SortDirection::Asc)]);
}

#[test]
fn a_direction_is_read_whichever_way_it_is_written() {
    for input in ["title desc", "title DESC", "title Desc"] {
        let sort = Sort::parse(input).unwrap();
        assert_eq!(
            keys(&sort),
            [("title".into(), SortDirection::Desc)],
            "{input}"
        );
    }
}

#[test]
fn terms_keep_the_order_they_arrived_in() {
    let sort = Sort::parse("readCount desc, title").unwrap();
    assert_eq!(
        keys(&sort),
        [
            ("readCount".into(), SortDirection::Desc),
            ("title".into(), SortDirection::Asc),
        ]
    );
}

#[test]
fn whitespace_is_not_significant() {
    let sort = Sort::parse("  readCount   desc ,title  ").unwrap();
    assert_eq!(
        keys(&sort),
        [
            ("readCount".into(), SortDirection::Desc),
            ("title".into(), SortDirection::Asc),
        ]
    );
}

/// An absent query parameter arrives as a blank string, not as an
/// error.
#[test]
fn a_blank_value_means_no_ordering() {
    for input in ["", "   "] {
        assert!(Sort::parse(input).unwrap().is_empty(), "{input:?}");
    }
}

#[test]
fn asc_appends_a_field() {
    let sort = Sort::parse("title desc").unwrap().asc("id");
    assert_eq!(
        keys(&sort),
        [
            ("title".into(), SortDirection::Desc),
            ("id".into(), SortDirection::Asc),
        ]
    );
}

#[test]
fn desc_appends_a_field() {
    let sort = Sort::parse("title").unwrap().desc("id");
    assert_eq!(
        keys(&sort),
        [
            ("title".into(), SortDirection::Asc),
            ("id".into(), SortDirection::Desc),
        ]
    );
}

/// A tiebreaker follows a client rather than overruling one: the
/// request asked for `id` descending, and keeps it.
#[test]
fn a_field_the_request_already_named_is_left_where_it_is() {
    let sort = Sort::parse("id desc").unwrap().asc("id");
    assert_eq!(keys(&sort), [("id".into(), SortDirection::Desc)]);
}

#[test]
fn a_tiebreaker_alone_is_the_whole_ordering() {
    let sort = Sort::parse("").unwrap().asc("id");
    assert_eq!(keys(&sort), [("id".into(), SortDirection::Asc)]);
}

#[test]
fn resolve_renames_fields_to_columns() {
    let sort = Sort::parse("readCount desc")
        .unwrap()
        .resolve(&columns())
        .unwrap();

    assert_eq!(keys(&sort), [("read_count".into(), SortDirection::Desc)]);
}

#[test]
fn writer_a_field_the_map_does_not_name_is_refused() {
    let error = Sort::parse("password_hash")
        .unwrap()
        .resolve(&columns())
        .unwrap_err();

    assert!(
        matches!(&error, Error::Field(field) if field == "password_hash"),
        "{error:?}"
    );
}

/// The allowlist is over fields, so asking for the column behind one is
/// refused too -- otherwise the map would be a suggestion.
#[test]
fn naming_the_column_instead_of_the_field_is_refused() {
    let error = Sort::parse("read_count")
        .unwrap()
        .resolve(&columns())
        .unwrap_err();

    assert!(matches!(error, Error::Field(_)), "{error:?}");
}

#[test]
fn a_tiebreaker_is_resolved_like_anything_else() {
    let error = Sort::parse("title")
        .unwrap()
        .asc("nope")
        .resolve(&columns())
        .unwrap_err();

    assert!(matches!(error, Error::Field(_)), "{error:?}");
}

#[test]
fn resolving_twice_changes_nothing() {
    let once = Sort::parse("title").unwrap().resolve(&columns()).unwrap();
    let twice = once.clone().resolve(&columns()).unwrap();

    assert_eq!(keys(&once), keys(&twice));
}

/// An ordering this program decided has no client input in it, so
/// there is nothing for an allowlist to check.
#[test]
fn a_sort_built_directly_needs_no_resolving() {
    let sort = Sort::new(vec![SortKey {
        name: "created_at".into(),
        direction: SortDirection::Desc,
    }]);

    assert_eq!(keys(&sort), [("created_at".into(), SortDirection::Desc)]);
}

#[test]
fn a_direction_that_is_not_one_is_refused() {
    let error = Sort::parse("title sideways").unwrap_err();
    assert!(matches!(error, Error::Sort(_)), "{error:?}");
}

#[test]
fn an_empty_term_is_refused() {
    for input in ["title,", ",title", "title,,created"] {
        let error = Sort::parse(input).unwrap_err();
        assert!(matches!(error, Error::Sort(_)), "{input:?} gave {error:?}");
    }
}

#[test]
fn a_third_word_is_refused() {
    let error = Sort::parse("title desc extra").unwrap_err();
    assert!(matches!(error, Error::Sort(_)), "{error:?}");
}
