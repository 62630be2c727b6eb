//! Pages, from the empty token to the empty token.

use sqlx_query::composer::compose::QueryComposer;
use sqlx_query::composer::cursor::{Cursor, CursorError, RowColumn};
use sqlx_query::composer::order::OrderByClause;
use sqlx_query::composer::pager::Pager;
use sqlx_query::composer::value::{Probe, Value};
use sqlx_query::driver::{Postgres, Sqlite};

const LIST_ORDERS: &str = "
    SELECT id, tenant_id, status, rank, receipt
      FROM orders
     WHERE /* query.where AND */ tenant_id = ?
     ORDER BY /* query.order_by , */ id
     LIMIT ?
";

fn nothing() -> Probe {
    Probe {
        null: false,
        int64: None,
        int32: None,
        int16: None,
        float64: None,
        float32: None,
        boolean: None,
        timestamp: None,
        uuid: None,
        text: None,
        bytes: None,
    }
}

fn row(id: i64, rank: i64) -> Vec<RowColumn> {
    let column = |name: &str, value: i64| RowColumn {
        name: name.to_owned(),
        held: Probe { int64: Some(value), ..nothing() },
    };
    vec![column("id", id), column("rank", rank)]
}

fn whole(value: &Value) -> i64 {
    match value {
        Value::Int(n) => *n,
        other => panic!("not a number: {other:?}"),
    }
}

/// What a database would give: the rows of the listing, by rank and then by id, that come after
/// the cursor, up to the limit.
fn fetch(listing: &[(i64, i64)], cursor: &Cursor, limit: i64) -> Vec<Vec<RowColumn>> {
    let clause = cursor.to_where_clause();
    let mut rows = listing.to_vec();
    rows.sort_by_key(|(id, rank)| (*rank, *id));
    rows.into_iter()
        .filter(|(id, rank)| match clause.values() {
            [] => true,
            [after_rank, after_id] => (*rank, *id) > (whole(after_rank), whole(after_id)),
            other => panic!("two keys, not {other:?}"),
        })
        .take(limit as usize)
        .map(|(id, rank)| row(id, rank))
        .collect()
}

fn pages(listing: &[(i64, i64)], size: usize) -> Vec<Vec<i64>> {
    let order_by = OrderByClause::default().asc("rank").asc("id");
    let pager = Pager::new(Cursor::new(order_by.clone()), size);
    let (mut seen, mut token) = (Vec::new(), String::new());
    for _ in 0..10 {
        let cursor = Cursor::parse(&token).expect("the token parses");
        let mut query = QueryComposer::<Sqlite>::new(LIST_ORDERS);
        query
            .bind_value(Value::text("acme"))
            .bind_value(Value::from(pager.limit()))
            .push_order_by(order_by.clone())
            .with_cursor(cursor.clone());
        query.compose().expect("composes");

        let page = pager
            .next_page(fetch(listing, &cursor, pager.limit()))
            .expect("the row carries every key");
        seen.push(
            page.rows
                .iter()
                .map(|row| whole(&row[0].held.value().expect("an id")))
                .collect(),
        );
        token = page.cursor.encode();
        if token.is_empty() {
            return seen;
        }
    }
    panic!("still paging after ten pages: {seen:?}");
}

const ACME: [(i64, i64); 3] = [(1, 10), (2, 20), (3, 30)];

#[test]
fn execute_a_pager_pages_through_every_row_once() {
    assert_eq!(pages(&ACME, 2), [vec![1, 2], vec![3]]);
    assert_eq!(pages(&ACME, 1), [vec![1], vec![2], vec![3]]);
}

#[test]
fn a_page_that_fills_exactly_has_no_cursor() {
    assert_eq!(pages(&ACME, 3), [vec![1, 2, 3]]);
}

#[test]
fn a_pager_breaks_ties_by_the_last_key() {
    let tied = [(4, 10), (1, 10), (3, 5), (2, 10)];
    assert_eq!(pages(&tied, 2), [vec![3, 1], vec![2, 4]]);
    assert_eq!(pages(&[], 2), [Vec::<i64>::new()]);
}

#[test]
fn a_pager_asks_for_one_row_more() {
    let pager = |size| Pager::new(Cursor::new(OrderByClause::default().asc("id")), size);
    assert_eq!(pager(1).limit(), 2);
    assert_eq!(pager(50).limit(), 51);
    assert_eq!(pager(usize::MAX).limit(), i64::MAX);
}

#[test]
fn a_page_fails_only_where_its_cursor_is_needed() {
    let pager = Pager::new(Cursor::new(OrderByClause::default().asc("name")), 1);
    let page = pager.next_page(vec![row(1, 1)]).unwrap();
    assert_eq!(page.rows.len(), 1);
    assert!(page.cursor.is_empty());
    assert_eq!(
        pager.next_page(vec![row(1, 1), row(2, 2)]).unwrap_err(),
        CursorError::RowColumnMissing("name".into())
    );
}

#[test]
fn the_empty_token_is_the_first_page() {
    let first = Cursor::parse("").unwrap();
    assert!(first.is_empty());
    assert_eq!(first.encode(), "");
    assert_eq!(Cursor::new(OrderByClause::default()).encode(), "");

    let sql = "SELECT 1 WHERE /* query.where AND */ TRUE ORDER BY /* query.order_by , */ id";
    let compose = |cursor: Option<Cursor>| {
        let mut query = QueryComposer::<Postgres>::new(sql);
        query.push_order_by(OrderByClause::default().desc("rank"));
        if let Some(cursor) = cursor {
            query.with_cursor(cursor);
        }
        query.compose().unwrap()
    };
    assert_eq!(compose(Some(first)), compose(None));
    assert_eq!(compose(None).sql(), "SELECT 1 WHERE  TRUE ORDER BY rank DESC , id");
}

#[test]
fn a_cursor_pages_on_a_uuid_key() {
    let order_by = OrderByClause::default().asc("id");
    let row = vec![RowColumn {
        name: "id".into(),
        held: Probe {
            uuid: Some([0x11; 16]),
            text: Some("1111111111111111".into()),
            bytes: Some(vec![0x11; 16]),
            ..nothing()
        },
    }];
    let token = Cursor::new(order_by).after_row(&row).expect("a uuid key decodes").encode();
    let clause = Cursor::parse(&token).expect("the token parses").to_where_clause();
    assert_eq!(clause.sql(), "(id > $1)");
    assert_eq!(clause.values(), [Value::Uuid([0x11; 16])]);
}
