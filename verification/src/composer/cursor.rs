//! A keyset pagination cursor: one boundary value per key of an ordering.

use vstd::prelude::*;
use vstd::string::StringExecFns;

use crate::bytes::{copy_bytes, extend};
use crate::codec::{read_base64, write_base64};
#[allow(unused_imports)]
use crate::codec::{base64_url, base64_url_read};
use crate::composer::clause::WhereClause;
#[allow(unused_imports)]
use crate::composer::clause::ClauseView;
use crate::composer::crc::crc32;
#[allow(unused_imports)]
use crate::composer::crc::crc32_of;
use crate::composer::order::{OrderByClause, OrderDirection, OrderKey};
#[allow(unused_imports)]
use crate::composer::order::{key_views, KeyView};
use crate::composer::value::{Probe, Value};
#[allow(unused_imports)]
use crate::composer::value::{probed, value_views, ValueView};
use crate::composer::wire::{take, write_part, Kind, Part};
#[allow(unused_imports)]
use crate::composer::wire::{faithful, kind_of, postcard_written, taken, PartView};
#[allow(unused_imports)]
use crate::paging::{
    comes_after, condition_for, condition_holds, law_the_condition_selects_what_comes_after,
    Check,
};
use crate::text::{copy_of, decimal_of, join, label, same};
#[allow(unused_imports)]
use crate::text::{decimal, joined, label_of, strings};

verus! {

/// Masks the checksum of a token. A change of what tokens hold comes with another mask, so
/// that every token from before is refused rather than misread.
pub const CURSOR_TOKEN_CHECKSUM_MASK: u32 = 0x5eed_c0de;

// ---------------------------------------------------------------------------
// Errors
// ---------------------------------------------------------------------------

/// Why there is no cursor.
#[derive(Debug, PartialEq, Eq)]
pub enum CursorError {
    /// Not one value per key.
    ValueCountMismatch { expected: usize, actual: usize },
    /// A token that is not base64.
    TokenInvalidBase64,
    /// A token that holds no cursor.
    TokenMalformed,
    /// A token that was changed after it was issued.
    TokenChecksumMismatch,
    /// A row without the column of a key.
    RowColumnMissing(String),
    /// A column that no value can hold.
    RowValueUndecodable(String),
}

/// Why there is no cursor, as contracts speak of it.
pub enum CursorFault {
    ValueCountMismatch { expected: nat, actual: nat },
    TokenInvalidBase64,
    TokenMalformed,
    TokenChecksumMismatch,
    RowColumnMissing(Seq<char>),
    RowValueUndecodable(Seq<char>),
}

impl View for CursorError {
    type V = CursorFault;

    open spec fn view(&self) -> CursorFault {
        match self {
            CursorError::ValueCountMismatch { expected, actual } => {
                CursorFault::ValueCountMismatch { expected: *expected as nat, actual: *actual as nat }
            },
            CursorError::TokenInvalidBase64 => CursorFault::TokenInvalidBase64,
            CursorError::TokenMalformed => CursorFault::TokenMalformed,
            CursorError::TokenChecksumMismatch => CursorFault::TokenChecksumMismatch,
            CursorError::RowColumnMissing(label) => CursorFault::RowColumnMissing(label@),
            CursorError::RowValueUndecodable(label) => CursorFault::RowValueUndecodable(label@),
        }
    }
}

impl CursorFault {
    /// The text that describes an error.
    pub open spec fn text(self) -> Seq<char> {
        match self {
            CursorFault::ValueCountMismatch { expected, actual } => "expected "@ + decimal(expected)
                + " cursor values (one per order_by key), got "@ + decimal(actual),
            CursorFault::TokenInvalidBase64 => "cursor token is not valid base64"@,
            CursorFault::TokenMalformed => "malformed cursor token"@,
            CursorFault::TokenChecksumMismatch => {
                "cursor token checksum mismatch — the token was corrupted or tampered with"@
            },
            CursorFault::RowColumnMissing(label) => "row has no column named `"@ + label
                + "` for an order_by key"@,
            CursorFault::RowValueUndecodable(label) => "column `"@ + label
                + "` is not one of the types a cursor can carry (bool, int, float, string, timestamp)"@,
        }
    }
}

impl CursorError {
    /// Describes this error.
    pub fn message(&self) -> (r: String)
        ensures
            r@ == self@.text(),
    {
        match self {
            CursorError::ValueCountMismatch { expected, actual } => copy_of("expected ").concat(
                decimal_of(*expected as u128).as_str(),
            ).concat(" cursor values (one per order_by key), got ").concat(
                decimal_of(*actual as u128).as_str(),
            ),
            CursorError::TokenInvalidBase64 => copy_of("cursor token is not valid base64"),
            CursorError::TokenMalformed => copy_of("malformed cursor token"),
            CursorError::TokenChecksumMismatch => copy_of(
                "cursor token checksum mismatch — the token was corrupted or tampered with",
            ),
            CursorError::RowColumnMissing(label) => copy_of("row has no column named `").concat(
                label.as_str(),
            ).concat("` for an order_by key"),
            CursorError::RowValueUndecodable(label) => copy_of("column `").concat(
                label.as_str(),
            ).concat(
                "` is not one of the types a cursor can carry (bool, int, float, string, timestamp)",
            ),
        }
    }
}

// ---------------------------------------------------------------------------
// Keys
// ---------------------------------------------------------------------------

/// A key of an ordering, with the boundary value for it once that is known.
#[derive(Debug, PartialEq, Eq)]
struct CursorKey {
    order: OrderKey,
    value: Option<Value>,
}

/// A key of a cursor, as contracts speak of it.
pub struct PlaceView {
    pub order: KeyView,
    pub value: Option<ValueView>,
}

/// A value that may be missing.
pub open spec fn value_seen(value: Option<Value>) -> Option<ValueView> {
    match value {
        Some(value) => Some(value@),
        None => None,
    }
}

impl View for CursorKey {
    type V = PlaceView;

    closed spec fn view(&self) -> PlaceView {
        PlaceView { order: self.order@, value: value_seen(self.value) }
    }
}

impl Clone for CursorKey {
    fn clone(&self) -> (r: CursorKey)
        ensures
            r@ == self@,
    {
        let value = match &self.value {
            Some(value) => Some(value.clone()),
            None => None,
        };
        CursorKey { order: self.order.clone(), value }
    }
}

/// What a list of keys holds.
spec fn place_views(keys: Seq<CursorKey>) -> Seq<PlaceView> {
    keys.map_values(|key: CursorKey| key@)
}

/// Keys that no value is known for yet.
pub open spec fn unset(keys: Seq<KeyView>) -> Seq<PlaceView> {
    keys.map_values(|order: KeyView| PlaceView { order, value: None })
}

/// The ordering that keys belong to.
pub open spec fn orders(keys: Seq<PlaceView>) -> Seq<KeyView> {
    keys.map_values(|key: PlaceView| key.order)
}

/// Every key has its value.
pub open spec fn complete(keys: Seq<PlaceView>) -> bool {
    forall|i: int| 0 <= i < keys.len() ==> (#[trigger] keys[i]).value is Some
}

/// The boundary values of complete keys.
pub open spec fn boundaries(keys: Seq<PlaceView>) -> Seq<ValueView> {
    keys.map_values(|key: PlaceView| key.value->0)
}

/// Keys with these boundary values.
pub open spec fn placed(keys: Seq<KeyView>, values: Seq<ValueView>) -> Seq<PlaceView> {
    Seq::new(keys.len(), |i: int| PlaceView { order: keys[i], value: Some(values[i]) })
}

// ---------------------------------------------------------------------------
// The predicate
// ---------------------------------------------------------------------------

/// The comparison that puts a row behind the boundary.
pub open spec fn beyond(direction: OrderDirection) -> Seq<char> {
    match direction {
        OrderDirection::Asc => ">"@,
        OrderDirection::Desc => "<"@,
    }
}

/// One comparison: a column with the value of its key.
pub open spec fn comparison(key: PlaceView, operator: Seq<char>, index: nat) -> Seq<char> {
    key.order.column + " "@ + operator + " $"@ + decimal(index)
}

/// The comparisons of a branch: the keys ahead of the `i`th are equal, and the `i`th is
/// beyond its boundary.
pub open spec fn comparisons(keys: Seq<PlaceView>, i: int) -> Seq<Seq<char>> {
    Seq::new(
        (i + 1) as nat,
        |j: int|
            comparison(
                keys[j],
                if j < i {
                    "="@
                } else {
                    beyond(keys[j].order.direction)
                },
                (j + 1) as nat,
            ),
    )
}

/// One branch of the predicate.
pub open spec fn branch(keys: Seq<PlaceView>, i: int) -> Seq<char> {
    "("@ + joined(comparisons(keys, i), " AND "@) + ")"@
}

/// The predicate that holds of the rows behind the boundary, in the sense of the ordering.
/// Each boundary value is bound once, and referenced by its number wherever it recurs.
pub open spec fn boundary_sql(keys: Seq<PlaceView>) -> Seq<char> {
    joined(Seq::new(keys.len(), |i: int| branch(keys, i)), " OR "@)
}

/// The predicate with its values.
pub open spec fn boundary(keys: Seq<PlaceView>) -> ClauseView {
    ClauseView { sql: boundary_sql(keys), values: boundaries(keys) }
}

// ---------------------------------------------------------------------------
// Rows
// ---------------------------------------------------------------------------

/// A column of a row: its label, and what it was found to hold.
#[derive(Debug, PartialEq, Eq)]
pub struct RowColumn {
    pub name: String,
    pub held: Probe,
}

/// The first column of that name, from the `i`th on.
pub open spec fn column_from(row: Seq<RowColumn>, name: Seq<char>, i: int) -> Option<int>
    decreases row.len() - i,
{
    if !(0 <= i < row.len()) {
        None
    } else if row[i].name@ == name {
        Some(i)
    } else {
        column_from(row, name, i + 1)
    }
}

/// The value that a row has for a column.
pub open spec fn row_value(row: Seq<RowColumn>, column: Seq<char>) -> Result<
    ValueView,
    CursorFault,
> {
    let label = label_of(column);
    match column_from(row, label, 0) {
        None => Err(CursorFault::RowColumnMissing(label)),
        Some(i) => match probed(row[i].held) {
            Some(value) => Ok(value),
            None => Err(CursorFault::RowValueUndecodable(label)),
        },
    }
}

/// The values that a row has for the keys from the `i`th on, behind those that were read.
pub open spec fn row_values(
    row: Seq<RowColumn>,
    keys: Seq<KeyView>,
    i: int,
    values: Seq<ValueView>,
) -> Result<Seq<ValueView>, CursorFault>
    decreases keys.len() - i,
{
    if !(0 <= i < keys.len()) {
        Ok(values)
    } else {
        match row_value(row, keys[i].column) {
            Ok(value) => row_values(row, keys, i + 1, values.push(value)),
            Err(fault) => Err(fault),
        }
    }
}

fn read_row(row: &[RowColumn], column: &str) -> (r: Result<Value, CursorError>)
    ensures
        match (r, row_value(row@, column@)) {
            (Ok(value), Ok(found)) => value@ == found,
            (Err(error), Err(fault)) => error@ == fault,
            _ => false,
        },
{
    let label = label(column);
    let mut i: usize = 0;
    while i < row.len()
        invariant
            i <= row.len(),
            label@ == label_of(column@),
            column_from(row@, label@, 0) == column_from(row@, label@, i as int),
        decreases row.len() - i,
    {
        if same(row[i].name.as_str(), label.as_str()) {
            return match row[i].held.value() {
                Some(value) => Ok(value),
                None => Err(CursorError::RowValueUndecodable(label)),
            };
        }
        i += 1;
    }
    Err(CursorError::RowColumnMissing(label))
}

// ---------------------------------------------------------------------------
// Tokens
// ---------------------------------------------------------------------------

/// The number that stands for a direction.
pub open spec fn direction_number(direction: OrderDirection) -> u32 {
    match direction {
        OrderDirection::Asc => 0u32,
        OrderDirection::Desc => 1u32,
    }
}

/// The direction that a number stands for.
pub open spec fn direction_of(number: u32) -> Option<OrderDirection> {
    if number == 0 {
        Some(OrderDirection::Asc)
    } else if number == 1 {
        Some(OrderDirection::Desc)
    } else {
        None
    }
}

/// The number that stands for a kind of value.
pub open spec fn variant_number(value: ValueView) -> u32 {
    match value {
        ValueView::Null => 0u32,
        ValueView::Bool(_) => 1u32,
        ValueView::Int(_) => 2u32,
        ValueView::Float(_) => 3u32,
        ValueView::Text(_) => 4u32,
        ValueView::Timestamp(_) => 5u32,
        ValueView::Bytes(_) => 6u32,
        ValueView::Uuid(_) => 7u32,
    }
}

/// The part that holds a value.
pub open spec fn payload(value: ValueView) -> Option<PartView> {
    match value {
        ValueView::Null => None,
        ValueView::Bool(b) => Some(PartView::Flag(b)),
        ValueView::Int(n) => Some(PartView::Int(n)),
        ValueView::Float(bits) => Some(PartView::Float(bits)),
        ValueView::Text(text) => Some(PartView::Text(text)),
        ValueView::Timestamp(micros) => Some(PartView::Int(micros)),
        ValueView::Bytes(bytes) => Some(PartView::Bytes(bytes)),
        ValueView::Uuid(bytes) => Some(PartView::Bytes(bytes)),
    }
}

/// The kind of part that holds a value of some kind.
pub open spec fn payload_kind(variant: u32) -> Option<Kind> {
    if variant == 1 {
        Some(Kind::Flag)
    } else if variant == 2 || variant == 5 {
        Some(Kind::Int)
    } else if variant == 3 {
        Some(Kind::Float)
    } else if variant == 4 {
        Some(Kind::Text)
    } else if variant == 6 || variant == 7 {
        Some(Kind::Bytes)
    } else {
        None
    }
}

/// The value of some kind that a part holds.
pub open spec fn value_in(variant: u32, part: PartView) -> Option<ValueView> {
    match part {
        PartView::Flag(b) if variant == 1 => Some(ValueView::Bool(b)),
        PartView::Int(n) if variant == 2 => Some(ValueView::Int(n)),
        PartView::Float(bits) if variant == 3 => Some(ValueView::Float(bits)),
        PartView::Text(text) if variant == 4 => Some(ValueView::Text(text)),
        PartView::Int(micros) if variant == 5 => Some(ValueView::Timestamp(micros)),
        PartView::Bytes(bytes) if variant == 6 => Some(ValueView::Bytes(bytes)),
        PartView::Bytes(bytes) if variant == 7 && bytes.len() == 16 => Some(
            ValueView::Uuid(bytes),
        ),
        _ => None,
    }
}

/// A value as bytes: the number of its kind, and what it holds.
pub open spec fn value_bytes(value: ValueView) -> Seq<u8> {
    postcard_written(PartView::Number(variant_number(value))) + match payload(value) {
        Some(part) => postcard_written(part),
        None => Seq::empty(),
    }
}

/// A complete key as bytes: column, direction, that there is a value, and the value.
pub open spec fn key_bytes(key: PlaceView) -> Seq<u8> {
    postcard_written(PartView::Text(key.order.column)) + (postcard_written(
        PartView::Number(direction_number(key.order.direction)),
    ) + (postcard_written(PartView::Flag(true)) + value_bytes(key.value->0)))
}

/// The keys from the `i`th on as bytes.
pub open spec fn keys_bytes(keys: Seq<PlaceView>, i: int) -> Seq<u8>
    decreases keys.len() - i,
{
    if !(0 <= i < keys.len()) {
        Seq::empty()
    } else {
        key_bytes(keys[i]) + keys_bytes(keys, i + 1)
    }
}

/// Keys as bytes: how many there are, and each of them.
pub open spec fn cursor_bytes(keys: Seq<PlaceView>) -> Seq<u8> {
    postcard_written(PartView::Length(keys.len() as u64)) + keys_bytes(keys, 0)
}

/// The checksum that a token carries.
pub open spec fn checksum(keys: Seq<PlaceView>) -> u32 {
    crc32_of(cursor_bytes(keys)) ^ CURSOR_TOKEN_CHECKSUM_MASK
}

/// What a token holds: the checksum, and the keys.
pub open spec fn token_bytes(keys: Seq<PlaceView>) -> Seq<u8> {
    postcard_written(PartView::Number(checksum(keys))) + cursor_bytes(keys)
}

/// The token for some keys. The first page has no keys, and the empty token.
pub open spec fn encoded(keys: Seq<PlaceView>) -> Seq<char> {
    if keys.len() == 0 {
        Seq::empty()
    } else {
        base64_url(token_bytes(keys))
    }
}

/// The value at the front of some bytes, and what follows it.
pub open spec fn value_read(bytes: Seq<u8>) -> Option<(ValueView, Seq<u8>)> {
    match taken(Kind::Number, bytes) {
        Some((PartView::Number(variant), rest)) => if variant == 0 {
            Some((ValueView::Null, rest))
        } else {
            match payload_kind(variant) {
                Some(kind) => match taken(kind, rest) {
                    Some((part, after)) => match value_in(variant, part) {
                        Some(value) => Some((value, after)),
                        None => None,
                    },
                    None => None,
                },
                None => None,
            }
        },
        _ => None,
    }
}

/// The key at the front of some bytes, and what follows it. A key without a value is none.
pub open spec fn key_read(bytes: Seq<u8>) -> Option<(PlaceView, Seq<u8>)> {
    match taken(Kind::Text, bytes) {
        Some((PartView::Text(column), rest)) => match taken(Kind::Number, rest) {
            Some((PartView::Number(number), rest)) => match direction_of(number) {
                Some(direction) => match taken(Kind::Flag, rest) {
                    Some((PartView::Flag(true), rest)) => match value_read(rest) {
                        Some((value, rest)) => Some(
                            (
                                PlaceView {
                                    order: KeyView { column, direction },
                                    value: Some(value),
                                },
                                rest,
                            ),
                        ),
                        None => None,
                    },
                    _ => None,
                },
                None => None,
            },
            _ => None,
        },
        _ => None,
    }
}

/// `n` keys at the front of some bytes, behind those that were read, and what follows them.
pub open spec fn keys_read(bytes: Seq<u8>, n: nat, keys: Seq<PlaceView>) -> Option<
    (Seq<PlaceView>, Seq<u8>),
>
    decreases n,
{
    if n == 0 {
        Some((keys, bytes))
    } else {
        match key_read(bytes) {
            Some((key, rest)) => keys_read(rest, (n - 1) as nat, keys.push(key)),
            None => None,
        }
    }
}

/// The checksum and the keys that a token holds. What follows them is ignored.
pub open spec fn token_read(bytes: Seq<u8>) -> Option<(u32, Seq<PlaceView>)> {
    match taken(Kind::Number, bytes) {
        Some((PartView::Number(sum), rest)) => match taken(Kind::Length, rest) {
            Some((PartView::Length(count), rest)) => match keys_read(
                rest,
                count as nat,
                Seq::empty(),
            ) {
                Some((keys, _)) => Some((sum, keys)),
                None => None,
            },
            _ => None,
        },
        _ => None,
    }
}

/// The keys, where the checksum is theirs.
pub open spec fn verified(sum: u32, keys: Seq<PlaceView>) -> Result<Seq<PlaceView>, CursorFault> {
    if sum == checksum(keys) {
        Ok(keys)
    } else {
        Err(CursorFault::TokenChecksumMismatch)
    }
}

/// The keys that some bytes hold.
pub open spec fn unpacked(bytes: Seq<u8>) -> Result<Seq<PlaceView>, CursorFault> {
    match token_read(bytes) {
        Some((sum, keys)) => verified(sum, keys),
        None => Err(CursorFault::TokenMalformed),
    }
}

/// The keys that a token holds: none, for the empty token.
pub open spec fn parsed(token: Seq<char>) -> Result<Seq<PlaceView>, CursorFault> {
    if token.len() == 0 {
        Ok(Seq::empty())
    } else {
        match base64_url_read(token) {
            Ok(bytes) => unpacked(bytes),
            Err(_) => Err(CursorFault::TokenInvalidBase64),
        }
    }
}

fn append_part(out: &mut Vec<u8>, part: Part)
    ensures
        final(out)@ == old(out)@ + postcard_written(part@),
        final(out)@.len() > old(out)@.len(),
{
    let bytes = write_part(&part);
    extend(out, bytes.as_slice());
}

fn append_value(out: &mut Vec<u8>, value: &Value)
    ensures
        final(out)@ == old(out)@ + value_bytes(value@),
{
    let ghost start = out@;
    let variant: u32 = match value {
        Value::Null => 0,
        Value::Bool(_) => 1,
        Value::Int(_) => 2,
        Value::Float(_) => 3,
        Value::String(_) => 4,
        Value::Timestamp(_) => 5,
        Value::Bytes(_) => 6,
        Value::Uuid(_) => 7,
    };
    append_part(out, Part::Number(variant));
    match value {
        Value::Null => {},
        Value::Bool(b) => append_part(out, Part::Flag(*b)),
        Value::Int(n) => append_part(out, Part::Int(*n)),
        Value::Float(bits) => append_part(out, Part::Float(*bits)),
        Value::String(text) => append_part(out, Part::Text(copy_of(text.as_str()))),
        Value::Timestamp(micros) => append_part(out, Part::Int(*micros)),
        Value::Bytes(bytes) => append_part(out, Part::Bytes(copy_bytes(bytes.as_slice()))),
        Value::Uuid(bytes) => append_part(out, Part::Bytes(copy_bytes(bytes.as_slice()))),
    }
    assert(out@ =~= start + value_bytes(value@));
}

fn append_key(out: &mut Vec<u8>, key: &CursorKey)
    requires
        key@.value is Some,
    ensures
        final(out)@ == old(out)@ + key_bytes(key@),
{
    let ghost start = out@;
    append_part(out, Part::Text(copy_of(key.order.column.as_str())));
    let direction: u32 = match key.order.direction {
        OrderDirection::Asc => 0,
        OrderDirection::Desc => 1,
    };
    append_part(out, Part::Number(direction));
    append_part(out, Part::Flag(true));
    if let Some(value) = &key.value {
        append_value(out, value);
    }
    assert(out@ =~= start + key_bytes(key@));
}

fn write_cursor(keys: &[CursorKey]) -> (r: Vec<u8>)
    requires
        complete(place_views(keys@)),
    ensures
        r@ == cursor_bytes(place_views(keys@)),
{
    let ghost views = place_views(keys@);
    let mut out: Vec<u8> = Vec::new();
    append_part(&mut out, Part::Length(keys.len() as u64));
    assert(out@ =~= postcard_written(PartView::Length(views.len() as u64)));
    let mut i: usize = 0;
    while i < keys.len()
        invariant
            i <= keys.len(),
            views == place_views(keys@),
            complete(views),
            out@ + keys_bytes(views, i as int) == cursor_bytes(views),
        decreases keys.len() - i,
    {
        let ghost before = out@;
        assert(views[i as int] == keys@[i as int]@);
        append_key(&mut out, &keys[i]);
        assert(out@ + keys_bytes(views, i + 1) =~= before + keys_bytes(views, i as int));
        i += 1;
    }
    assert(out@ + keys_bytes(views, i as int) =~= out@);
    out
}

// A reading that follows only faithful parts reads what was written.

/// Every part of the value at the front of some bytes is read as it was written.
pub open spec fn value_faithful(bytes: Seq<u8>) -> bool {
    &&& faithful(Kind::Number, bytes)
    &&& match taken(Kind::Number, bytes) {
        Some((PartView::Number(variant), rest)) => match payload_kind(variant) {
            Some(kind) => faithful(kind, rest),
            None => true,
        },
        _ => true,
    }
}

/// Every part of the key at the front of some bytes is read as it was written.
pub open spec fn key_faithful(bytes: Seq<u8>) -> bool {
    &&& faithful(Kind::Text, bytes)
    &&& match taken(Kind::Text, bytes) {
        Some((_, rest)) => {
            &&& faithful(Kind::Number, rest)
            &&& match taken(Kind::Number, rest) {
                Some((PartView::Number(number), rest)) if direction_of(number) is Some => {
                    &&& faithful(Kind::Flag, rest)
                    &&& match taken(Kind::Flag, rest) {
                        Some((PartView::Flag(true), rest)) => value_faithful(rest),
                        _ => true,
                    }
                },
                _ => true,
            }
        },
        None => true,
    }
}

/// Every part of the `n` keys at the front of some bytes is read as it was written.
pub open spec fn keys_faithful(bytes: Seq<u8>, n: nat) -> bool
    decreases n,
{
    n == 0 || {
        &&& key_faithful(bytes)
        &&& match key_read(bytes) {
            Some((_, rest)) => keys_faithful(rest, (n - 1) as nat),
            None => true,
        }
    }
}

/// Every part of a token is read as it was written.
pub open spec fn token_faithful(bytes: Seq<u8>) -> bool {
    &&& faithful(Kind::Number, bytes)
    &&& match taken(Kind::Number, bytes) {
        Some((_, rest)) => {
            &&& faithful(Kind::Length, rest)
            &&& match taken(Kind::Length, rest) {
                Some((PartView::Length(count), rest)) => keys_faithful(rest, count as nat),
                _ => true,
            }
        },
        None => true,
    }
}

fn read_value<'a>(bytes: &'a [u8]) -> (r: Option<(Value, &'a [u8])>)
    ensures
        match (r, value_read(bytes@)) {
            (Some((value, rest)), Some((found, left))) => value@ == found && rest@ == left,
            (None, None) => true,
            _ => false,
        },
        value_faithful(bytes@),
{
    let (variant, rest): (u32, &'a [u8]) = match take(Kind::Number, bytes) {
        Some((Part::Number(variant), rest)) => (variant, rest),
        _ => {
            return None;
        },
    };
    if variant == 0 {
        return Some((Value::Null, rest));
    }
    let kind = match variant {
        1 => Kind::Flag,
        2 | 5 => Kind::Int,
        3 => Kind::Float,
        4 => Kind::Text,
        6 | 7 => Kind::Bytes,
        _ => {
            return None;
        },
    };
    match take(kind, rest) {
        Some((Part::Flag(b), after)) => Some((Value::Bool(b), after)),
        Some((Part::Int(n), after)) => if variant == 2 {
            Some((Value::Int(n), after))
        } else {
            Some((Value::Timestamp(n), after))
        },
        Some((Part::Float(bits), after)) => Some((Value::Float(bits), after)),
        Some((Part::Text(text), after)) => Some((Value::String(text), after)),
        Some((Part::Bytes(held), after)) => if variant == 6 {
            Some((Value::Bytes(held), after))
        } else if held.len() == 16 {
            Some((Value::Uuid(sixteen(held.as_slice())), after))
        } else {
            None
        },
        _ => None,
    }
}

fn sixteen(bytes: &[u8]) -> (r: [u8; 16])
    requires
        bytes@.len() == 16,
    ensures
        r@ == bytes@,
{
    let r = [
        bytes[0],
        bytes[1],
        bytes[2],
        bytes[3],
        bytes[4],
        bytes[5],
        bytes[6],
        bytes[7],
        bytes[8],
        bytes[9],
        bytes[10],
        bytes[11],
        bytes[12],
        bytes[13],
        bytes[14],
        bytes[15],
    ];
    assert(r@ =~= bytes@);
    r
}

fn read_key<'a>(bytes: &'a [u8]) -> (r: Option<(CursorKey, &'a [u8])>)
    ensures
        match (r, key_read(bytes@)) {
            (Some((key, rest)), Some((found, left))) => key@ == found && rest@ == left,
            (None, None) => true,
            _ => false,
        },
        key_faithful(bytes@),
{
    let (column, rest): (String, &'a [u8]) = match take(Kind::Text, bytes) {
        Some((Part::Text(column), rest)) => (column, rest),
        _ => {
            return None;
        },
    };
    let (number, rest): (u32, &'a [u8]) = match take(Kind::Number, rest) {
        Some((Part::Number(number), rest)) => (number, rest),
        _ => {
            return None;
        },
    };
    let direction = if number == 0 {
        OrderDirection::Asc
    } else if number == 1 {
        OrderDirection::Desc
    } else {
        return None;
    };
    match take(Kind::Flag, rest) {
        Some((Part::Flag(true), rest)) => match read_value(rest) {
            Some((value, rest)) => {
                Some((CursorKey { order: OrderKey { column, direction }, value: Some(value) }, rest))
            },
            None => None,
        },
        _ => None,
    }
}

fn read_keys<'a>(bytes: &'a [u8], count: u64) -> (r: Option<Vec<CursorKey>>)
    ensures
        match (r, keys_read(bytes@, count as nat, Seq::empty())) {
            (Some(keys), Some((found, _))) => place_views(keys@) == found && complete(found),
            (None, None) => true,
            _ => false,
        },
        keys_faithful(bytes@, count as nat),
{
    let mut keys: Vec<CursorKey> = Vec::new();
    let mut rest = bytes;
    let mut left: u64 = count;
    assert(place_views(keys@) =~= Seq::<PlaceView>::empty());
    while left > 0
        invariant
            keys_read(bytes@, count as nat, Seq::empty()) == keys_read(
                rest@,
                left as nat,
                place_views(keys@),
            ),
            keys_faithful(rest@, left as nat) ==> keys_faithful(bytes@, count as nat),
            complete(place_views(keys@)),
        decreases left,
    {
        match read_key(rest) {
            Some((key, after)) => {
                let ghost held = place_views(keys@);
                keys.push(key);
                assert(place_views(keys@) =~= held.push(key@));
                rest = after;
            },
            None => {
                return None;
            },
        }
        left -= 1;
    }
    Some(keys)
}

// ---------------------------------------------------------------------------
// Cursors
// ---------------------------------------------------------------------------

/// A keyset pagination cursor.
#[derive(Debug, PartialEq, Eq)]
pub struct Cursor {
    keys: Vec<CursorKey>,
}

impl View for Cursor {
    type V = Seq<PlaceView>;

    closed spec fn view(&self) -> Seq<PlaceView> {
        place_views(self.keys@)
    }
}

fn copy_places(keys: &[CursorKey]) -> (r: Vec<CursorKey>)
    ensures
        place_views(r@) == place_views(keys@),
{
    let mut r: Vec<CursorKey> = Vec::new();
    let mut i: usize = 0;
    while i < keys.len()
        invariant
            i <= keys.len(),
            r.len() == i,
            forall|j: int| 0 <= j < i ==> (#[trigger] r@[j])@ == keys@[j]@,
        decreases keys.len() - i,
    {
        r.push(keys[i].clone());
        i += 1;
    }
    assert(place_views(r@) =~= place_views(keys@));
    r
}

impl Clone for Cursor {
    fn clone(&self) -> (r: Cursor)
        ensures
            r@ == self@,
    {
        Cursor { keys: copy_places(self.keys.as_slice()) }
    }
}

impl Cursor {
    /// The keys of an ordering, with no boundary values yet.
    pub fn new(order_by: OrderByClause) -> (r: Cursor)
        ensures
            r@ == unset(order_by@),
    {
        let ghost views = order_by@;
        let orders = order_by.keys();
        let mut keys: Vec<CursorKey> = Vec::new();
        let mut i: usize = 0;
        while i < orders.len()
            invariant
                i <= orders.len(),
                keys.len() == i,
                views == key_views(orders@),
                forall|j: int|
                    0 <= j < i ==> (#[trigger] keys@[j])@ == (PlaceView {
                        order: views[j],
                        value: None,
                    }),
            decreases orders.len() - i,
        {
            assert(views[i as int] == orders@[i as int]@);
            keys.push(CursorKey { order: orders[i].clone(), value: None });
            i += 1;
        }
        assert(place_views(keys@) =~= unset(views));
        Cursor { keys }
    }

    /// Whether every key has its boundary value.
    pub fn is_complete(&self) -> (b: bool)
        ensures
            b == complete(self@),
    {
        let mut i: usize = 0;
        while i < self.keys.len()
            invariant
                i <= self.keys.len(),
                forall|j: int| 0 <= j < i ==> (#[trigger] self@[j]).value is Some,
                self@ == place_views(self.keys@),
            decreases self.keys.len() - i,
        {
            assert(self@[i as int] == self.keys@[i as int]@);
            if self.keys[i].value.is_none() {
                return false;
            }
            i += 1;
        }
        true
    }

    /// Supplies all boundary values at once, one per key, in order.
    pub fn after(self, values: Vec<Value>) -> (r: Result<Cursor, CursorError>)
        ensures
            match r {
                Ok(cursor) => values@.len() == self@.len() && cursor@ == placed(
                    orders(self@),
                    value_views(values@),
                ),
                Err(error) => values@.len() != self@.len() && error@
                    == CursorFault::ValueCountMismatch {
                    expected: self@.len(),
                    actual: values@.len(),
                },
            },
            r matches Ok(cursor) ==> complete(cursor@),
    {
        if values.len() != self.keys.len() {
            return Err(
                CursorError::ValueCountMismatch {
                    expected: self.keys.len(),
                    actual: values.len(),
                },
            );
        }
        let ghost views = self@;
        let ghost given = value_views(values@);
        let mut keys: Vec<CursorKey> = Vec::new();
        let mut i: usize = 0;
        while i < values.len()
            invariant
                i <= values.len(),
                values.len() == self.keys.len(),
                keys.len() == i,
                views == place_views(self.keys@),
                given == value_views(values@),
                forall|j: int|
                    0 <= j < i ==> (#[trigger] keys@[j])@ == (PlaceView {
                        order: views[j].order,
                        value: Some(given[j]),
                    }),
            decreases values.len() - i,
        {
            assert(views[i as int] == self.keys@[i as int]@);
            keys.push(
                CursorKey { order: self.keys[i].order.clone(), value: Some(values[i].clone()) },
            );
            i += 1;
        }
        assert(place_views(keys@) =~= placed(orders(views), given));
        Ok(Cursor { keys })
    }

    /// Supplies all boundary values at once off a row, the last one of a page. Each key's
    /// column is looked up by its label, so the row's own order does not matter.
    pub fn after_row(self, row: &[RowColumn]) -> (r: Result<Cursor, CursorError>)
        ensures
            match (r, row_values(row@, orders(self@), 0, Seq::empty())) {
                (Ok(cursor), Ok(values)) => cursor@ == placed(orders(self@), values) && values.len()
                    == self@.len() && complete(cursor@),
                (Err(error), Err(fault)) => error@ == fault,
                _ => false,
            },
    {
        let ghost keys = orders(self@);
        let mut values: Vec<Value> = Vec::new();
        let mut i: usize = 0;
        assert(value_views(values@) =~= Seq::<ValueView>::empty());
        while i < self.keys.len()
            invariant
                i <= self.keys.len(),
                values.len() == i,
                keys == orders(place_views(self.keys@)),
                keys == orders(self@),
                row_values(row@, keys, 0, Seq::empty()) == row_values(
                    row@,
                    keys,
                    i as int,
                    value_views(values@),
                ),
            decreases self.keys.len() - i,
        {
            assert(keys[i as int] == self.keys@[i as int]@.order);
            match read_row(row, self.keys[i].order.column.as_str()) {
                Ok(value) => {
                    let ghost held = value_views(values@);
                    values.push(value);
                    assert(value_views(values@) =~= held.push(value@));
                },
                Err(error) => {
                    return Err(error);
                },
            }
            i += 1;
        }
        self.after(values)
    }

    /// The ordering that this cursor was built against.
    pub fn to_order_by_clause(&self) -> (r: OrderByClause)
        ensures
            r@ == orders(self@),
    {
        let mut keys: Vec<OrderKey> = Vec::new();
        let mut i: usize = 0;
        let ghost views = self@;
        while i < self.keys.len()
            invariant
                i <= self.keys.len(),
                keys.len() == i,
                views == place_views(self.keys@),
                forall|j: int| 0 <= j < i ==> (#[trigger] keys@[j])@ == views[j].order,
            decreases self.keys.len() - i,
        {
            assert(views[i as int] == self.keys@[i as int]@);
            keys.push(self.keys[i].order.clone());
            i += 1;
        }
        assert(key_views(keys@) =~= orders(views));
        OrderByClause::from_keys(keys)
    }

    /// One comparison.
    fn compare(&self, i: usize, operator: &str) -> (r: String)
        requires
            i < self@.len(),
            i < self.keys@.len(),
        ensures
            r@ == comparison(self@[i as int], operator@, (i + 1) as nat),
    {
        let mut sql = copy_of(self.keys[i].order.column.as_str());
        sql.append(" ");
        sql.append(operator);
        sql.append(" $");
        sql.append(decimal_of(i as u128 + 1).as_str());
        sql
    }

    /// One branch of the predicate.
    fn write_branch(&self, i: usize) -> (r: String)
        requires
            i < self.keys@.len(),
        ensures
            r@ == branch(self@, i as int),
    {
        let ghost keys = self@;
        let mut conditions: Vec<String> = Vec::new();
        let mut j: usize = 0;
        while j < i
            invariant
                j <= i,
                i < self.keys@.len(),
                keys == self@,
                keys.len() == self.keys@.len(),
                conditions.len() == j,
                forall|k: int|
                    0 <= k < j ==> (#[trigger] conditions@[k])@ == comparison(
                        keys[k],
                        "="@,
                        (k + 1) as nat,
                    ),
            decreases i - j,
        {
            conditions.push(self.compare(j, "="));
            j += 1;
        }
        assert(keys[i as int] == self.keys@[i as int]@);
        let operator = match self.keys[i].order.direction {
            OrderDirection::Asc => ">",
            OrderDirection::Desc => "<",
        };
        conditions.push(self.compare(i, operator));
        assert(strings(conditions@) =~= comparisons(keys, i as int));
        let mut sql = copy_of("(");
        sql.append(join(conditions.as_slice(), " AND ").as_str());
        sql.append(")");
        sql
    }

    /// The predicate that holds of the rows behind the boundary: for keys `k1..kn`,
    /// `(k1 OP1 v1) OR (k1 = v1 AND k2 OP2 v2) OR ...`, where an operator is `>` for an
    /// ascending key and `<` for a descending one.
    pub fn to_where_clause(&self) -> (r: WhereClause)
        requires
            complete(self@),
        ensures
            r@ == boundary(self@),
    {
        let ghost keys = self@;
        let mut branches: Vec<String> = Vec::new();
        let mut values: Vec<Value> = Vec::new();
        let mut i: usize = 0;
        while i < self.keys.len()
            invariant
                i <= self.keys.len(),
                keys == self@,
                keys.len() == self.keys@.len(),
                keys == place_views(self.keys@),
                complete(keys),
                branches.len() == i,
                values.len() == i,
                forall|k: int| 0 <= k < i ==> (#[trigger] branches@[k])@ == branch(keys, k),
                forall|k: int| 0 <= k < i ==> (#[trigger] values@[k])@ == keys[k].value->0,
            decreases self.keys.len() - i,
        {
            assert(keys[i as int] == self.keys@[i as int]@);
            assert(keys[i as int].value is Some);
            branches.push(self.write_branch(i));
            if let Some(value) = &self.keys[i].value {
                values.push(value.clone());
            }
            i += 1;
        }
        assert(strings(branches@) =~= Seq::new(keys.len(), |k: int| branch(keys, k)));
        assert(value_views(values@) =~= boundaries(keys));
        WhereClause::with_values(join(branches.as_slice(), " OR "), values)
    }

    /// What the token of this cursor holds.
    pub fn to_bytes(&self) -> (r: Vec<u8>)
        requires
            complete(self@),
        ensures
            r@ == token_bytes(self@),
            r@.len() > 0,
    {
        let held = write_cursor(self.keys.as_slice());
        let mut out: Vec<u8> = Vec::new();
        append_part(&mut out, Part::Number(crc32(held.as_slice()) ^ CURSOR_TOKEN_CHECKSUM_MASK));
        assert(out@ =~= postcard_written(PartView::Number(checksum(self@))));
        extend(&mut out, held.as_slice());
        out
    }

    /// Whether this cursor has no keys, and stands for the first page.
    pub fn is_empty(&self) -> (b: bool)
        ensures
            b == (self@.len() == 0),
    {
        self.keys.len() == 0
    }

    /// The token of this cursor, which can be handed out as it is. Only a cursor without keys
    /// has the empty token.
    pub fn encode(&self) -> (r: String)
        requires
            complete(self@),
        ensures
            r@ == encoded(self@),
            r@.len() == 0 <==> self@.len() == 0,
    {
        if self.is_empty() {
            return String::new();
        }
        write_base64(self.to_bytes().as_slice())
    }

    /// This cursor, where the checksum is its own.
    pub fn verify(self, sum: u32) -> (r: Result<Cursor, CursorError>)
        requires
            complete(self@),
        ensures
            match (r, verified(sum, self@)) {
                (Ok(cursor), Ok(keys)) => cursor@ == keys,
                (Err(error), Err(fault)) => error@ == fault,
                _ => false,
            },
    {
        let held = write_cursor(self.keys.as_slice());
        if crc32(held.as_slice()) ^ CURSOR_TOKEN_CHECKSUM_MASK == sum {
            Ok(self)
        } else {
            Err(CursorError::TokenChecksumMismatch)
        }
    }

    /// Reads what a token holds. Bytes that were written for a cursor give it back.
    pub fn from_bytes(bytes: &[u8]) -> (r: Result<Cursor, CursorError>)
        ensures
            match (r, unpacked(bytes@)) {
                (Ok(cursor), Ok(keys)) => cursor@ == keys && complete(keys),
                (Err(error), Err(fault)) => error@ == fault,
                _ => false,
            },
            forall|keys: Seq<PlaceView>|
                writable(keys) && bytes@ == #[trigger] token_bytes(keys) ==> unpacked(bytes@)
                    == accepted(keys),
    {
        proof {
            assert forall|keys: Seq<PlaceView>|
                token_faithful(bytes@) && writable(keys) && bytes@ == #[trigger] token_bytes(
                    keys,
                ) implies unpacked(bytes@) == accepted(keys) by {
                lemma_token(keys);
            }
        }
        let (sum, rest): (u32, &[u8]) = match take(Kind::Number, bytes) {
            Some((Part::Number(sum), rest)) => (sum, rest),
            _ => {
                return Err(CursorError::TokenMalformed);
            },
        };
        let (count, rest): (u64, &[u8]) = match take(Kind::Length, rest) {
            Some((Part::Length(count), rest)) => (count, rest),
            _ => {
                return Err(CursorError::TokenMalformed);
            },
        };
        match read_keys(rest, count) {
            Some(keys) => Cursor { keys }.verify(sum),
            None => Err(CursorError::TokenMalformed),
        }
    }

    /// Reads a token. The token of a cursor gives it back, and the empty one is the first page.
    pub fn parse(token: &str) -> (r: Result<Cursor, CursorError>)
        ensures
            match (r, parsed(token@)) {
                (Ok(cursor), Ok(keys)) => cursor@ == keys && complete(keys),
                (Err(error), Err(fault)) => error@ == fault,
                _ => false,
            },
            forall|keys: Seq<PlaceView>|
                writable(keys) && token@ == #[trigger] encoded(keys) && (token@.len() == 0
                    <==> keys.len() == 0) ==> gives(r, keys),
    {
        if token.is_empty() {
            let r = Cursor { keys: Vec::new() };
            assert(r@ =~= Seq::<PlaceView>::empty());
            proof {
                assert forall|keys: Seq<PlaceView>| keys.len() == 0 implies keys == r@ by {
                    assert(keys =~= r@);
                }
            }
            return Ok(r);
        }
        let read = read_base64(token);
        match read {
            Ok(bytes) => {
                let r = Cursor::from_bytes(bytes.as_slice());
                proof {
                    assert forall|keys: Seq<PlaceView>|
                        writable(keys) && token@ == #[trigger] encoded(keys) && keys.len()
                            > 0 implies gives(
                        r,
                        keys,
                    ) by {
                        assert(base64_url(token_bytes(keys)) == token@);
                        assert(bytes@ == token_bytes(keys));
                    }
                }
                r
            },
            Err(_) => {
                proof {
                    assert forall|keys: Seq<PlaceView>|
                        writable(keys) && token@ == #[trigger] encoded(keys) && keys.len()
                            > 0 implies false by {
                        assert(base64_url(token_bytes(keys)) == token@);
                    }
                }
                Err(CursorError::TokenInvalidBase64)
            },
        }
    }
}

// ---------------------------------------------------------------------------
// Laws
// ---------------------------------------------------------------------------

/// Keys that a cursor can hold: each has a value, each identifier is sixteen bytes long, and
/// their number can be written down.
pub open spec fn writable(keys: Seq<PlaceView>) -> bool {
    &&& keys.len() <= u64::MAX
    &&& complete(keys)
    &&& forall|i: int| 0 <= i < keys.len() ==> value_fits((#[trigger] keys[i]).value->0)
}

/// An identifier is sixteen bytes long.
pub open spec fn value_fits(value: ValueView) -> bool {
    value matches ValueView::Uuid(bytes) ==> bytes.len() == 16
}

/// A reading that gave these keys.
pub open spec fn accepted(keys: Seq<PlaceView>) -> Result<Seq<PlaceView>, CursorFault> {
    Ok(keys)
}

/// A reading that gave a cursor with these keys.
pub open spec fn gives(r: Result<Cursor, CursorError>, keys: Seq<PlaceView>) -> bool {
    match r {
        Ok(cursor) => cursor@ == keys,
        Err(_) => false,
    }
}

proof fn lemma_taken(part: PartView, rest: Seq<u8>)
    requires
        faithful(kind_of(part), postcard_written(part) + rest),
    ensures
        taken(kind_of(part), postcard_written(part) + rest) == Some((part, rest)),
{
}

proof fn lemma_value(value: ValueView, rest: Seq<u8>)
    requires
        value_fits(value),
        value_faithful(value_bytes(value) + rest),
    ensures
        value_read(value_bytes(value) + rest) == Some((value, rest)),
{
    let bytes = value_bytes(value) + rest;
    let variant = PartView::Number(variant_number(value));
    let after = match payload(value) {
        Some(part) => postcard_written(part) + rest,
        None => rest,
    };
    assert(bytes =~= postcard_written(variant) + after);
    lemma_taken(variant, after);
    if let Some(part) = payload(value) {
        lemma_taken(part, rest);
    }
}

proof fn lemma_key(key: PlaceView, rest: Seq<u8>)
    requires
        key.value is Some,
        value_fits(key.value->0),
        key_faithful(key_bytes(key) + rest),
    ensures
        key_read(key_bytes(key) + rest) == Some((key, rest)),
{
    let bytes = key_bytes(key) + rest;
    let column = PartView::Text(key.order.column);
    let direction = PartView::Number(direction_number(key.order.direction));
    let there = PartView::Flag(true);
    let held = value_bytes(key.value->0) + rest;
    let b2 = postcard_written(there) + held;
    let b1 = postcard_written(direction) + b2;
    assert(bytes =~= postcard_written(column) + b1);
    lemma_taken(column, b1);
    lemma_taken(direction, b2);
    lemma_taken(there, held);
    lemma_value(key.value->0, rest);
}

proof fn lemma_keys(keys: Seq<PlaceView>, i: int, before: Seq<PlaceView>, rest: Seq<u8>)
    requires
        writable(keys),
        0 <= i <= keys.len(),
        before == keys.take(i),
        keys_faithful(keys_bytes(keys, i) + rest, (keys.len() - i) as nat),
    ensures
        keys_read(keys_bytes(keys, i) + rest, (keys.len() - i) as nat, before) == Some(
            (keys, rest),
        ),
    decreases keys.len() - i,
{
    let bytes = keys_bytes(keys, i) + rest;
    if i < keys.len() {
        let after = keys_bytes(keys, i + 1) + rest;
        assert(bytes =~= key_bytes(keys[i]) + after);
        lemma_key(keys[i], after);
        assert(before.push(keys[i]) =~= keys.take(i + 1));
        lemma_keys(keys, i + 1, before.push(keys[i]), rest);
    } else {
        assert(bytes =~= rest);
        assert(before =~= keys);
    }
}

proof fn lemma_token(keys: Seq<PlaceView>)
    requires
        writable(keys),
        token_faithful(token_bytes(keys)),
    ensures
        unpacked(token_bytes(keys)) == accepted(keys),
{
    let bytes = token_bytes(keys);
    let sum = PartView::Number(checksum(keys));
    let count = PartView::Length(keys.len() as u64);
    let held = keys_bytes(keys, 0);
    assert(bytes == postcard_written(sum) + cursor_bytes(keys));
    lemma_taken(sum, cursor_bytes(keys));
    lemma_taken(count, held);
    assert(keys.take(0) =~= Seq::<PlaceView>::empty());
    assert(held + Seq::<u8>::empty() =~= held);
    lemma_keys(keys, 0, keys.take(0), Seq::empty());
}

/// Paging goes from the empty token to the empty token: no keys have it, and it has no keys.
pub proof fn law_the_empty_token_is_the_first_page()
    ensures
        encoded(Seq::empty()) == Seq::<char>::empty(),
        parsed(Seq::empty()) == accepted(Seq::empty()),
{
}

/// A cursor keeps the ordering that it was built from, whatever its values.
pub proof fn law_a_cursor_keeps_its_ordering(keys: Seq<KeyView>, values: Seq<ValueView>)
    requires
        keys.len() == values.len(),
    ensures
        orders(unset(keys)) == keys,
        orders(placed(keys, values)) == keys,
        boundaries(placed(keys, values)) == values,
{
    assert(orders(unset(keys)) =~= keys);
    assert(orders(placed(keys, values)) =~= keys);
    assert(boundaries(placed(keys, values)) =~= values);
}

/// A token whose checksum is not the one of the keys that it holds is refused.
pub proof fn law_a_changed_token_is_refused(bytes: Seq<u8>, sum: u32, keys: Seq<PlaceView>)
    requires
        token_read(bytes) == Some((sum, keys)),
        sum != checksum(keys),
    ensures
        unpacked(bytes) == Err::<Seq<PlaceView>, CursorFault>(CursorFault::TokenChecksumMismatch),
{
}

/// The mask keeps the checksum of a token apart from a plain CRC-32.
pub proof fn law_the_mask_sets_the_checksum_apart(keys: Seq<PlaceView>)
    ensures
        checksum(keys) != crc32_of(cursor_bytes(keys)),
{
    let crc = crc32_of(cursor_bytes(keys));
    assert(crc ^ 0x5eed_c0deu32 != crc) by (bit_vector);
}

/// Each boundary value is bound once: a predicate has as many values as there are keys.
pub proof fn law_each_boundary_is_bound_once(keys: Seq<PlaceView>)
    ensures
        boundary(keys).values.len() == keys.len(),
        boundary(keys).values == boundaries(keys),
{
}

/// The operator that asks a check of a column.
pub open spec fn operator_for(check: Check, direction: OrderDirection) -> Seq<char> {
    match check {
        Check::Equal => "="@,
        Check::Beyond => beyond(direction),
    }
}

/// A branch as SQL: its checks with `AND` between them.
pub open spec fn branch_written(branch: Seq<Check>, keys: Seq<PlaceView>) -> Seq<char> {
    "("@ + joined(
        Seq::new(
            branch.len(),
            |j: int|
                comparison(
                    keys[j],
                    operator_for(branch[j], keys[j].order.direction),
                    (j + 1) as nat,
                ),
        ),
        " AND "@,
    ) + ")"@
}

/// A condition as SQL: its branches with `OR` between them.
pub open spec fn condition_written(condition: Seq<Seq<Check>>, keys: Seq<PlaceView>) -> Seq<char> {
    joined(Seq::new(condition.len(), |i: int| branch_written(condition[i], keys)), " OR "@)
}

/// Which keys descend.
pub open spec fn descending(keys: Seq<PlaceView>) -> Seq<bool> {
    keys.map_values(|key: PlaceView| key.order.direction == OrderDirection::Desc)
}

/// A page starts strictly after its position: the predicate of a cursor writes down a
/// condition that holds of a row exactly where the row comes after the boundary, each column
/// the way it runs. `signs` says how the row's columns lie to the boundary.
pub proof fn law_a_page_starts_strictly_after_its_position(keys: Seq<PlaceView>, signs: Seq<int>)
    requires
        signs.len() == keys.len(),
    ensures
        boundary(keys).sql == condition_written(condition_for(keys.len()), keys),
        condition_holds(condition_for(keys.len()), signs, descending(keys)) == comes_after(
            signs,
            descending(keys),
        ),
{
    let condition = condition_for(keys.len());
    let branches = Seq::new(keys.len(), |i: int| branch(keys, i));
    let written = Seq::new(condition.len(), |i: int| branch_written(condition[i], keys));
    assert forall|i: int| 0 <= i < keys.len() implies branches[i] == written[i] by {
        let checks = condition[i];
        assert(comparisons(keys, i) =~= Seq::new(
            checks.len(),
            |j: int|
                comparison(
                    keys[j],
                    operator_for(checks[j], keys[j].order.direction),
                    (j + 1) as nat,
                ),
        ));
    }
    assert(branches =~= written);
    law_the_condition_selects_what_comes_after(signs, descending(keys));
}

// ---------------------------------------------------------------------------
// The layout of a token
// ---------------------------------------------------------------------------

/// The place of a value's kind in the list of kinds: null, a flag, an integer, a floating-point
/// number, a text, a timestamp, bytes, an identifier.
pub open spec fn place_of_kind(value: ValueView) -> u32 {
    if value is Null {
        0
    } else if value is Bool {
        1
    } else if value is Int {
        2
    } else if value is Float {
        3
    } else if value is Text {
        4
    } else if value is Timestamp {
        5
    } else if value is Bytes {
        6
    } else {
        7
    }
}

/// What a value holds, as the parts of a token.
pub open spec fn held_parts(value: ValueView) -> Seq<PartView> {
    match value {
        ValueView::Null => seq![],
        ValueView::Bool(b) => seq![PartView::Flag(b)],
        ValueView::Int(n) => seq![PartView::Int(n)],
        ValueView::Float(bits) => seq![PartView::Float(bits)],
        ValueView::Text(text) => seq![PartView::Text(text)],
        ValueView::Timestamp(n) => seq![PartView::Int(n)],
        ValueView::Bytes(bytes) => seq![PartView::Bytes(bytes)],
        ValueView::Uuid(bytes) => seq![PartView::Bytes(bytes)],
    }
}

/// A key as the parts of a token: the column, zero for ascending or one for descending, that
/// there is a value, the place of its kind, and what it holds.
pub open spec fn key_parts(key: PlaceView) -> Seq<PartView> {
    seq![
        PartView::Text(key.order.column),
        PartView::Number(
            if key.order.direction == OrderDirection::Desc {
                1
            } else {
                0
            },
        ),
        PartView::Flag(true),
        PartView::Number(place_of_kind(key.value->0)),
    ] + held_parts(key.value->0)
}

/// Parts as bytes, one behind the other.
pub open spec fn parts_written(parts: Seq<PartView>, i: int) -> Seq<u8>
    decreases parts.len() - i,
{
    if !(0 <= i < parts.len()) {
        Seq::empty()
    } else {
        postcard_written(parts[i]) + parts_written(parts, i + 1)
    }
}

/// A key of a token is laid out part by part: the column, the direction, that there is a value, the
/// kind and the value. So a token that was issued is read wherever this layout is known.
pub proof fn law_a_key_is_laid_out_in_parts(key: PlaceView)
    requires
        key.value is Some,
    ensures
        key_bytes(key) == parts_written(key_parts(key), 0),
{
    let value = key.value->0;
    let parts = key_parts(key);
    reveal_with_fuel(parts_written, 6);
    assert(parts[0] == PartView::Text(key.order.column));
    assert(parts[2] == PartView::Flag(true));
    assert(parts[3] == PartView::Number(variant_number(value)));
    assert(key_bytes(key) =~= parts_written(parts, 0));
}

/// An error tells how many values were expected before how many there were, and which column a row
/// lacks or holds something in that no cursor can carry.
pub proof fn law_an_error_tells_what_is_wrong(expected: nat, actual: nat, label: Seq<char>)
    ensures
        (CursorFault::ValueCountMismatch { expected, actual }).text() == "expected "@ + (decimal(
            expected,
        ) + (" cursor values (one per order_by key), got "@ + decimal(actual))),
        CursorFault::RowColumnMissing(label).text() == "row has no column named `"@ + (label
            + "` for an order_by key"@),
        CursorFault::RowValueUndecodable(label).text() == "column `"@ + (label
            + "` is not one of the types a cursor can carry (bool, int, float, string, timestamp)"@),
{
    assert((CursorFault::ValueCountMismatch { expected, actual }).text() =~= "expected "@ + (decimal(
        expected,
    ) + (" cursor values (one per order_by key), got "@ + decimal(actual))));
    assert(CursorFault::RowColumnMissing(label).text() =~= "row has no column named `"@ + (label
        + "` for an order_by key"@));
    assert(CursorFault::RowValueUndecodable(label).text() =~= "column `"@ + (label
        + "` is not one of the types a cursor can carry (bool, int, float, string, timestamp)"@));
}

} // verus!
