use base64::engine::general_purpose::URL_SAFE_NO_PAD;
use base64::Engine as _;
use sqlx_query::composer::crc::crc32;
use sqlx_query::composer::cursor::{Cursor, CursorError, RowColumn};
use sqlx_query::composer::order::OrderByClause;
use sqlx_query::composer::value::{Probe, Value};

#[test]
fn builds_tuple_comparison_for_two_keys() {
    let order_by = OrderByClause::parse("rank desc, id asc").unwrap();
    let cursor = Cursor::new(order_by)
        .after(vec![Value::Int(42), Value::Int(7)])
        .unwrap();

    let where_by = cursor.to_where_clause();

    assert_eq!(where_by.sql(), "(rank < $1) OR (rank = $1 AND id > $2)");
    assert_eq!(where_by.values(), &[Value::Int(42), Value::Int(7)]);
}

#[test]
fn after_rejects_wrong_value_count() {
    let order_by = OrderByClause::parse("rank desc, id asc").unwrap();
    let err = Cursor::new(order_by)
        .after(vec![Value::Int(1)])
        .unwrap_err();
    assert_eq!(
        err,
        CursorError::ValueCountMismatch {
            expected: 2,
            actual: 1
        }
    );
    assert_eq!(
        err.message(),
        "expected 2 cursor values (one per order_by key), got 1"
    );
}

#[test]
fn order_by_round_trips() {
    let order_by = OrderByClause::parse("rank desc, id asc").unwrap();
    let cursor = Cursor::new(order_by.clone())
        .after(vec![Value::Int(42), Value::Int(7)])
        .unwrap();

    assert_eq!(cursor.to_order_by_clause(), order_by);
}

#[test]
fn crc32_matches_known_test_vector() {
    assert_eq!(crc32(b"123456789"), 0xCBF4_3926);
}

#[test]
fn encode_parse_round_trips_order_by_and_values() {
    let order_by = OrderByClause::parse("rank desc, name asc").unwrap();
    let cursor = Cursor::new(order_by.clone())
        .after(vec![Value::Int(42), Value::String("alice".into())])
        .unwrap();

    let parsed = Cursor::parse(&cursor.encode()).unwrap();

    assert_eq!(parsed.to_order_by_clause(), order_by);
    assert_eq!(parsed.to_where_clause(), cursor.to_where_clause());
}

#[test]
fn encode_parse_round_trips_every_value_variant() {
    let order_by = OrderByClause::parse("a asc, b asc, c asc, d asc, e asc, f asc").unwrap();
    let timestamp = 1_700_000_000_123_000i64;
    let cursor = Cursor::new(order_by)
        .after(vec![
            Value::Null,
            Value::Bool(true),
            Value::Int(-7),
            Value::Float(3.5f64.to_bits()),
            Value::String("hello".into()),
            Value::Timestamp(timestamp),
        ])
        .unwrap();

    let parsed = Cursor::parse(&cursor.encode()).unwrap();

    assert_eq!(
        parsed.to_where_clause().values(),
        cursor.to_where_clause().values()
    );
}

#[test]
fn parse_rejects_invalid_base64() {
    let err = Cursor::parse("not valid base64!!").unwrap_err();
    assert_eq!(err, CursorError::TokenInvalidBase64);
    assert_eq!(err.message(), "cursor token is not valid base64");
}

#[test]
fn parse_rejects_garbage_bytes() {
    let token = URL_SAFE_NO_PAD.encode([1u8, 2, 3]);
    let err = Cursor::parse(&token).unwrap_err();
    assert_eq!(err, CursorError::TokenMalformed);
    assert_eq!(err.message(), "malformed cursor token");
}

#[test]
fn parse_rejects_corrupted_token() {
    let order_by = OrderByClause::parse("rank desc").unwrap();
    let cursor = Cursor::new(order_by).after(vec![Value::Int(42)]).unwrap();
    let token = cursor.encode();

    let mut wire = URL_SAFE_NO_PAD.decode(&token).unwrap();
    let last = wire.len() - 1;
    wire[last] ^= 0xFF;
    let tampered = URL_SAFE_NO_PAD.encode(&wire);

    let err = Cursor::parse(&tampered).unwrap_err();
    assert!(matches!(
        err,
        CursorError::TokenChecksumMismatch | CursorError::TokenMalformed
    ));
}

/// A token is the checksum and then what it is the checksum of.
fn halves(wire: &[u8]) -> (u32, Vec<u8>) {
    let (checksum, payload): (u32, &[u8]) = postcard::take_from_bytes(wire).unwrap();
    (checksum, payload.to_vec())
}

#[test]
fn checksum_mask_distinguishes_from_a_plain_crc32() {
    let order_by = OrderByClause::parse("rank desc").unwrap();
    let cursor = Cursor::new(order_by).after(vec![Value::Int(42)]).unwrap();

    let (checksum, payload) = halves(&cursor.to_bytes());
    assert_ne!(checksum, crc32(&payload));
    assert_eq!(checksum, crc32(&payload) ^ 0x5eed_c0de);
}

#[test]
fn a_token_of_another_mask_is_refused() {
    let order_by = OrderByClause::parse("rank desc").unwrap();
    let cursor = Cursor::new(order_by).after(vec![Value::Int(42)]).unwrap();

    let (_, payload) = halves(&cursor.to_bytes());
    let mut wire = postcard::to_allocvec(&crc32(&payload)).unwrap();
    wire.extend_from_slice(&payload);
    let err = Cursor::parse(&URL_SAFE_NO_PAD.encode(&wire)).unwrap_err();
    assert_eq!(err, CursorError::TokenChecksumMismatch);
    assert_eq!(
        err.message(),
        "cursor token checksum mismatch — the token was corrupted or tampered with"
    );
}

#[test]
fn a_payload_is_laid_out_part_by_part() {
    let order_by = OrderByClause::parse("ab desc").unwrap();
    let cursor = Cursor::new(order_by).after(vec![Value::Int(-3)]).unwrap();
    let (_, payload) = halves(&cursor.to_bytes());
    // One key: its column, descending, a value, an integer, zig-zagged.
    assert_eq!(payload, [1, 2, b'a', b'b', 1, 1, 2, 5]);
}

#[test]
fn bytes_identifiers_and_floats_round_trip() {
    let order_by = OrderByClause::parse("a, b, c desc").unwrap();
    let values = vec![
        Value::Bytes(vec![0, 255, 7]),
        Value::Uuid([7; 16]),
        Value::Float((-0.0f64).to_bits()),
    ];
    let cursor = Cursor::new(order_by).after(values).unwrap();
    let parsed = Cursor::parse(&cursor.encode()).unwrap();
    assert_eq!(parsed, cursor);
    assert!(parsed.is_complete());
}

#[test]
fn a_key_without_its_value_is_malformed() {
    // One key `a`, ascending, and no value.
    let payload = [1u8, 1, b'a', 0, 0];
    let mut wire = postcard::to_allocvec(&(crc32(&payload) ^ 0x5eed_c0de)).unwrap();
    wire.extend_from_slice(&payload);
    assert_eq!(
        Cursor::from_bytes(&wire).unwrap_err(),
        CursorError::TokenMalformed
    );
}

#[test]
fn a_cursor_is_complete_once_it_has_its_values() {
    let order_by = OrderByClause::parse("a, b").unwrap();
    let cursor = Cursor::new(order_by);
    assert!(!cursor.is_complete());
    let cursor = cursor.after(vec![Value::Null, Value::Null]).unwrap();
    assert!(cursor.is_complete());
    assert!(Cursor::new(OrderByClause::default()).is_complete());
}

fn held(value: i64) -> Probe {
    Probe {
        null: false,
        int64: Some(value),
        int32: None,
        int16: None,
        float64: None,
        float32: None,
        boolean: None,
        timestamp: None,
        uuid: None,
        text: None,
        bytes: None,
    }
}

#[test]
fn a_row_fills_the_keys_by_their_labels() {
    let row = [
        RowColumn {
            name: "id".into(),
            held: held(7),
        },
        RowColumn {
            name: "created_at".into(),
            held: held(42),
        },
    ];
    let order_by = OrderByClause::parse("v.created_at desc, id").unwrap();
    let cursor = Cursor::new(order_by).after_row(&row).unwrap();
    let clause = cursor.to_where_clause();
    assert_eq!(
        clause.sql(),
        "(v.created_at < $1) OR (v.created_at = $1 AND id > $2)"
    );
    assert_eq!(clause.values(), &[Value::Int(42), Value::Int(7)]);

    let order_by = OrderByClause::parse("v.rank").unwrap();
    let err = Cursor::new(order_by).after_row(&row).unwrap_err();
    assert_eq!(err, CursorError::RowColumnMissing("rank".into()));
    assert_eq!(
        err.message(),
        "row has no column named `rank` for an order_by key"
    );

    let opaque = [RowColumn {
        name: "id".into(),
        held: Probe {
            int64: None,
            ..held(0)
        },
    }];
    let order_by = OrderByClause::parse("id").unwrap();
    let err = Cursor::new(order_by).after_row(&opaque).unwrap_err();
    assert_eq!(err, CursorError::RowValueUndecodable("id".into()));
    assert_eq!(
        err.message(),
        "column `id` is not one of the types a cursor can carry (bool, int, float, string, timestamp)"
    );
}
