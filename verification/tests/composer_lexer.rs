use sqlx_query::composer::lexer::{Placeholder, QueryLexer, Token};
use sqlx_query::composer::syntax::QueryDialect;
use sqlx_query::driver::{MySql, Postgres, Sqlite};

fn lexer<DB: QueryDialect>() -> QueryLexer {
    QueryLexer::new(DB::syntax())
}

fn shift(sql: &str, offset: usize) -> String {
    lexer::<Postgres>().shift_placeholder_numbers(sql, offset)
}

fn markers<DB: QueryDialect>(sql: &str) -> usize {
    lexer::<DB>()
        .scan(sql)
        .iter()
        .filter(|token| token.is_placeholder_question())
        .count()
}

#[test]
fn zero_offset_is_a_no_op() {
    assert_eq!(shift("x = $1", 0), "x = $1");
}

#[test]
fn shifts_simple_placeholders() {
    assert_eq!(
        shift("name = $1 AND score > $2", 1),
        "name = $2 AND score > $3"
    );
}

#[test]
fn shifts_placeholders_in_order_by_fragment() {
    assert_eq!(
        shift("CASE WHEN role = $1 THEN 0 ELSE 1 END", 4),
        "CASE WHEN role = $5 THEN 0 ELSE 1 END"
    );
}

#[test]
fn leaves_string_literals_and_dollar_quoted_bodies_untouched() {
    let input =
        "name = $1 AND note = 'literal $1 stays' AND body = $body$raw $1 stays$body$ AND score > $2";
    let expected =
        "name = $2 AND note = 'literal $1 stays' AND body = $body$raw $1 stays$body$ AND score > $3";
    assert_eq!(shift(input, 1), expected);
}

#[test]
fn shifts_multi_digit_placeholders() {
    assert_eq!(
        shift("x = $1 AND y = $10 AND z = $12", 1),
        "x = $2 AND y = $11 AND z = $13"
    );
}

#[test]
fn leaves_quoted_identifier_bodies_untouched() {
    assert_eq!(shift(r#""col$1" = $1"#, 1), r#""col$1" = $2"#);
}

#[test]
fn only_shifts_placeholders_outside_comments() {
    let input =
        "x = $1 -- ignore $1 here\n   AND y = $2 /* and /* nested $1 */ stays */ AND z = $3";
    let expected =
        "x = $2 -- ignore $1 here\n   AND y = $3 /* and /* nested $1 */ stays */ AND z = $4";
    assert_eq!(shift(input, 1), expected);
}

#[test]
fn treats_doubled_quote_as_escape_and_leaves_lone_dollar_alone() {
    let input = r"note = 'it''s $1 inside' AND price > $1 AND tag <> 'A' || '$' || 'B'";
    let expected = r"note = 'it''s $1 inside' AND price > $2 AND tag <> 'A' || '$' || 'B'";
    assert_eq!(shift(input, 1), expected);
}

#[test]
fn leaves_empty_tag_dollar_quoted_body_untouched() {
    assert_eq!(
        shift("raw = $$keep $1 raw$$ AND id = $1", 1),
        "raw = $$keep $1 raw$$ AND id = $2"
    );
}

#[test]
fn shifts_before_an_unterminated_string_literal() {
    assert_eq!(
        shift("x = $1 AND note = 'unterminated $1", 1),
        "x = $2 AND note = 'unterminated $1"
    );
}

#[test]
fn shifts_before_an_unterminated_dollar_quoted_body() {
    assert_eq!(
        shift("x = $1 AND raw = $tag$body $1 still raw", 1),
        "x = $2 AND raw = $tag$body $1 still raw"
    );
}

#[test]
fn passes_lone_dollar_and_unclosed_tag_opener_through() {
    assert_eq!(
        shift("x = $1 AND amount > $ AND label = $abc", 1),
        "x = $2 AND amount > $ AND label = $abc"
    );
}

#[test]
fn treats_doubled_double_quote_as_escape_in_identifiers() {
    assert_eq!(
        shift(r#""weird""col $1" = $1 AND "open $1"#, 1),
        r#""weird""col $1" = $2 AND "open $1"#
    );
}

#[test]
fn max_placeholder_reads_the_highest_number_not_the_count() {
    assert_eq!(
        lexer::<Postgres>().max_placeholder_number("(rank < $1) OR (rank = $1 AND id > $2)"),
        2
    );
    assert_eq!(
        lexer::<Postgres>().max_placeholder_number("role = 'admin'"),
        0
    );
}

#[test]
fn markers_are_found_outside_literals_and_comments() {
    let sql = "tenant = ? AND note = 'why? really' -- ? here\n AND id = ?";
    assert_eq!(markers::<Sqlite>(sql), 2);
}

#[test]
fn mysql_skips_backtick_identifiers_hash_comments_and_backslash_escapes() {
    let sql = "`weird?col` = ? AND note = 'it\\'s ? inside' # trailing ?\n AND x = ?";
    assert_eq!(markers::<MySql>(sql), 2);
}

#[test]
fn sqlite_skips_bracket_identifiers_and_does_not_nest_block_comments() {
    assert_eq!(markers::<Sqlite>("[weird?col] = ?"), 1);
    assert_eq!(markers::<Sqlite>("/* a /* b */ x = ?"), 1);
}

#[test]
fn a_slot_inside_a_string_literal_is_not_a_slot() {
    let sql = "note = '/* query.where AND */' AND /* query.where AND */ TRUE";
    let slots = lexer::<Postgres>()
        .scan(sql)
        .into_iter()
        .filter(|token| matches!(token, Token::Slot { .. }))
        .count();
    assert_eq!(slots, 1);
}

#[test]
fn a_slot_carries_its_name_and_suffix() {
    let tokens = lexer::<Postgres>().scan("/* query.where AND */");
    assert_eq!(
        tokens,
        vec![Token::Slot {
            start: 0,
            end: 21,
            name: "where".to_owned(),
            suffix: " AND".to_owned(),
        }]
    );
}

#[test]
fn a_slot_name_may_go_beyond_ascii() {
    let tokens = lexer::<Postgres>().scan("/* query.größe , */");
    assert_eq!(
        tokens,
        vec![Token::Slot {
            start: 0,
            end: 21,
            name: "größe".to_owned(),
            suffix: " ,".to_owned(),
        }]
    );
    assert!(lexer::<Postgres>().scan("/* query.→ */").is_empty());
}

#[test]
fn a_number_that_no_machine_counts_to_is_no_placeholder() {
    let sql = "x = $99999999999999999999999999 AND y = $1";
    assert_eq!(lexer::<Postgres>().max_placeholder_number(sql), 1);
    assert_eq!(
        shift(sql, 1),
        "x = $99999999999999999999999999 AND y = $2"
    );
}

#[test]
fn a_shift_raises_every_number_by_as_much() {
    let sql = "a = $3 OR b = $1 OR c = $3";
    let shifted = shift(sql, 97);
    assert_eq!(shifted, "a = $100 OR b = $98 OR c = $100");
    assert_eq!(lexer::<Postgres>().max_placeholder_number(&shifted), 100);
    assert_eq!(shift(&shift(sql, 40), 57), shifted);
}

#[test]
fn a_dialect_without_numbers_refuses_one() {
    let lexer = lexer::<Sqlite>();
    let tokens = lexer.scan("a = ? AND b = $4 AND c = $2");
    let error = lexer.count_placeholders(&tokens).unwrap_err();
    assert_eq!(
        error,
        sqlx_query::composer::lexer::PlaceholderError::Unsupported { number: 4 }
    );
    let tokens = lexer.scan("a = ? AND b = ?");
    assert_eq!(lexer.count_placeholders(&tokens), Ok(2));
}

#[test]
fn positions_count_bytes() {
    let sql = "größe = $12 AND /* query.where */ ?";
    let tokens = lexer::<Postgres>().scan(sql);
    assert_eq!(
        tokens,
        vec![
            Token::Placeholder(Placeholder::Number {
                start: 10,
                end: 13,
                number: 12,
            }),
            Token::Slot {
                start: 18,
                end: 35,
                name: "where".to_owned(),
                suffix: String::new(),
            },
            Token::Placeholder(Placeholder::Question { start: 36, end: 37 }),
        ]
    );
    assert_eq!(&sql[10..13], "$12");
    assert_eq!(&sql[18..35], "/* query.where */");
    assert_eq!(&sql[36..37], "?");
}
