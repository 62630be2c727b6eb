//! The predicate of a cursor, held against every row of a small table.

use sqlx_query::columns::{Columns, QueryResolver};
use sqlx_query::composer::cursor::Cursor;
use sqlx_query::composer::filter::FilterClause;
use sqlx_query::composer::order::{OrderByClause, OrderClauseError};
use sqlx_query::composer::value::Value;

/// Whether a row satisfies a predicate of the form `(a = $1 AND b > $2) OR (..)`.
fn satisfies(sql: &str, row: &[(&str, i64)], values: &[i64]) -> bool {
    sql.split(" OR ").any(|branch| {
        branch
            .trim_start_matches('(')
            .trim_end_matches(')')
            .split(" AND ")
            .all(|comparison| {
                let words: Vec<&str> = comparison.split(' ').collect();
                let held = row.iter().find(|(name, _)| *name == words[0]).unwrap().1;
                let at: usize = words[2].trim_start_matches('$').parse().unwrap();
                match words[1] {
                    "=" => held == values[at - 1],
                    ">" => held > values[at - 1],
                    "<" => held < values[at - 1],
                    other => panic!("{other}"),
                }
            })
    })
}

#[test]
fn a_page_starts_strictly_after_its_position() {
    for (order_by, descending) in [
        ("a, b, c", [false, false, false]),
        ("a desc, b, c desc", [true, false, true]),
        ("a desc, b desc, c desc", [true, true, true]),
    ] {
        let boundary = [1i64, 1, 1];
        let cursor = Cursor::new(OrderByClause::parse(order_by).unwrap())
            .after(boundary.iter().map(|value| Value::Int(*value)).collect())
            .unwrap();
        let clause = cursor.to_where_clause();
        assert_eq!(clause.values().len(), 3);

        for n in 0..27i64 {
            let row = [n / 9, n / 3 % 3, n % 3];
            let mut after = false;
            for i in 0..3 {
                if row[i] != boundary[i] {
                    after = (row[i] < boundary[i]) == descending[i];
                    break;
                }
            }
            let named = [("a", row[0]), ("b", row[1]), ("c", row[2])];
            assert_eq!(
                satisfies(clause.sql(), &named, &boundary),
                after,
                "{order_by}: {row:?}"
            );
        }
    }
}

fn resolved<T: QueryResolver>(asked: T, columns: &Columns) -> Result<T, T::Error> {
    asked.resolve(columns)
}

#[test]
fn everything_with_fields_resolves_the_same_way() {
    let columns = Columns::new().with("readCount", "read_count");

    let order = resolved(OrderByClause::parse("readCount desc").unwrap(), &columns).unwrap();
    assert_eq!(order.sql(), "read_count DESC");
    assert_eq!(
        resolved(OrderByClause::parse("secret").unwrap(), &columns).err(),
        Some(OrderClauseError::UnknownField("secret".to_string()))
    );

    let filter = resolved(FilterClause::parse("readCount > 3").unwrap(), &columns).unwrap();
    assert_eq!(filter.to_where_clause().sql(), "(read_count) > ($1)");
    assert!(resolved(FilterClause::parse("secret > 3").unwrap(), &columns).is_err());
}

#[test]
fn the_text_of_a_filter_does_not_depend_on_its_constants() {
    let text = |cel: &str| {
        FilterClause::parse(cel).unwrap().to_where_clause().sql().to_string()
    };
    assert_eq!(
        text(r#"a == 1 && (b in ["x", "y"] || c.startsWith("%"))"#),
        text(r#"a == 99 && (b in ["'; --", "z"] || c.startsWith("q"))"#)
    );
}
