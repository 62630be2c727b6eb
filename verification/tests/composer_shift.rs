//! Placeholders stay with their values through shifting, combining and splicing.

use sqlx_query::composer::clause::WhereClause;
use sqlx_query::composer::compose::{QueryArgument, QueryComposer};
use sqlx_query::composer::lexer::{Placeholder, QueryLexer, Token};
use sqlx_query::composer::syntax::{QueryDialect, QuerySyntax};
use sqlx_query::composer::value::Value;
use sqlx_query::driver::{MySql, Postgres, Sqlite};

fn numbers(syntax: QuerySyntax, sql: &str) -> Vec<usize> {
    QueryLexer::new(syntax)
        .scan(sql)
        .iter()
        .filter_map(Token::placeholder_number)
        .collect()
}

#[test]
fn shifting_raises_numbers_and_nothing_else() {
    let lexer = QueryLexer::new(Postgres::syntax());
    let sql = "a = $1 AND b = '$2' AND $tag$ $3 $tag$ = $007 /* $4 */ /* query.where AND */ -- $5";
    let shifted = lexer.shift_placeholder_numbers(sql, 10);

    assert_eq!(
        shifted,
        "a = $11 AND b = '$2' AND $tag$ $3 $tag$ = $17 /* $4 */ /* query.where AND */ -- $5"
    );
    let before = lexer.scan(sql);
    let after = lexer.scan(&shifted);
    assert_eq!(before.len(), after.len());
    for (before, after) in before.iter().zip(&after) {
        match (before, after) {
            (
                Token::Placeholder(Placeholder::Number { number, .. }),
                Token::Placeholder(Placeholder::Number { number: raised, .. }),
            ) => assert_eq!(*raised, number + 10),
            (
                Token::Slot { name, suffix, .. },
                Token::Slot { name: same_name, suffix: same_suffix, .. },
            ) => {
                assert_eq!(name, same_name);
                assert_eq!(suffix, same_suffix);
            }
            (before, after) => panic!("{before:?} became {after:?}"),
        }
    }
}

#[test]
fn a_number_beyond_the_machine_is_left_alone() {
    let lexer = QueryLexer::standard();
    let sql = "a = $99999999999999999999999999 AND b = $1";
    assert_eq!(
        lexer.shift_placeholder_numbers(sql, 1),
        "a = $99999999999999999999999999 AND b = $2"
    );
}

#[test]
fn combining_keeps_each_number_on_its_value() {
    let a = WhereClause::new("x = $1 OR y = $2 OR z = $1")
        .bind_value(Value::Int(10))
        .bind_value(Value::Int(20));
    let b = WhereClause::new("p = $2 AND q = $1 AND r = '$1'")
        .bind_value(Value::Int(30))
        .bind_value(Value::Int(40));
    let both = a.and(b);

    assert_eq!(
        both.sql(),
        "(x = $1 OR y = $2 OR z = $1) AND (p = $4 AND q = $3 AND r = '$1')"
    );
    let named: Vec<&Value> = numbers(QuerySyntax::standard(), both.sql())
        .into_iter()
        .map(|n| &both.values()[n - 1])
        .collect();
    assert_eq!(
        named,
        [
            &Value::Int(10),
            &Value::Int(20),
            &Value::Int(10),
            &Value::Int(40),
            &Value::Int(30),
        ]
    );
}

#[test]
fn splicing_replaces_only_slots() {
    let mut query = QueryComposer::<Postgres>::new(
        "SELECT '$9' FROM t WHERE (/* query.where AND */ a = $2) AND b = $1",
    );
    query
        .bind_value(Value::Int(1))
        .bind_value(Value::Int(2))
        .push_where(WhereClause::new("c = $1").bind_value(Value::Int(3)));
    let statement = query.compose().unwrap();

    assert_eq!(
        statement.sql(),
        "SELECT '$9' FROM t WHERE (c = $3 AND a = $2) AND b = $1"
    );
    assert_eq!(numbers(Postgres::syntax(), statement.sql()), [3, 2, 1]);
}

#[test]
fn splicing_numbers_a_bare_mark_by_its_place() {
    let mut query = QueryComposer::<MySql>::new(
        "SELECT * FROM t WHERE a = ? AND /* query.where AND */ b = ?",
    );
    query
        .bind_value(Value::Int(1))
        .bind_value(Value::Int(2))
        .push_where(WhereClause::new("c = $1 OR d = $1").bind_value(Value::Int(3)));
    let statement = query.compose().unwrap();

    assert_eq!(
        statement.sql(),
        "SELECT * FROM t WHERE a = ? AND (c = ? OR d = ?) AND b = ?"
    );
    let bound: Vec<&Value> = statement
        .arguments()
        .iter()
        .map(|argument| argument.value().unwrap())
        .collect();
    assert_eq!(
        bound,
        [&Value::Int(1), &Value::Int(3), &Value::Int(3), &Value::Int(2)]
    );
    assert!(matches!(statement.arguments()[0], QueryArgument::Value(_)));
}

/// The values a `?` statement reports are per *occurrence*, and in the
/// order the driver will consume them.
#[test]
fn reported_arguments_match_what_the_driver_receives() {
    let mut query = QueryComposer::<Sqlite>::new(
        "
    SELECT id, tenant_id, status, rank, receipt
      FROM orders
     WHERE /* query.where AND */ tenant_id = ?
     ORDER BY /* query.order_by , */ id
     LIMIT ?
",
    );
    query
        .bind_value(Value::text("acme"))
        .bind_value(Value::Int(10))
        .push_where(WhereClause::new("rank > $1").bind_value(Value::Int(20)));

    let statement = query.compose().expect("composes");
    let values: Vec<Option<&Value>> = statement
        .arguments()
        .iter()
        .map(QueryArgument::value)
        .collect();

    assert_eq!(
        values,
        vec![
            Some(&Value::Int(20)),
            Some(&Value::String("acme".into())),
            Some(&Value::Int(10)),
        ],
        "filter first: its slot precedes the base query's own markers"
    );
}

#[test]
fn two_shifts_are_one() {
    let lexer = QueryLexer::new(Postgres::syntax());
    let sql = "a = $1 AND b = '$1' AND c = $9 /* $2 */";
    let once = lexer.shift_placeholder_numbers(sql, 12);
    let twice =
        lexer.shift_placeholder_numbers(&lexer.shift_placeholder_numbers(sql, 5), 7);
    assert_eq!(once, "a = $13 AND b = '$1' AND c = $21 /* $2 */");
    assert_eq!(twice, once);
}
