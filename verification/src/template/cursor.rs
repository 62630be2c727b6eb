//! Page tokens: where the last page stopped, and under what ordering.

use vstd::prelude::*;
use vstd::slice::slice_subrange;
use vstd::string::StringExecFns;

#[allow(unused_imports)]
use crate::bytes::{be32, be64, lemma_be32, lemma_be64, lemma_signed, of_be32, of_be64};
use crate::bytes::{copy_bytes, extend, read_be32, read_be64, text_of, write_be32, write_be64};
#[allow(unused_imports)]
use crate::codec::{base64_url, base64_url_read, read_as, seen, url_safe};
use crate::codec::{read_base64, write_base64};
#[allow(unused_imports)]
use crate::instant::is_instant;
use crate::instant::names_instant;
#[allow(unused_imports)]
use crate::paging::{
    comes_after, condition_for, condition_holds, law_the_condition_selects_what_comes_after,
    tie_breaker, Check,
};
use crate::template::dialect::{quote_name, Dialect};
#[allow(unused_imports)]
use crate::template::dialect::quoted;
use crate::template::error::Error;
#[allow(unused_imports)]
use crate::template::fragment::{chars, sql_of, Piece};
use crate::template::fragment::{add_text, add_value, QueryFragment};
#[allow(unused_imports)]
use crate::template::mapping::{column_views, ColumnView};
use crate::template::mapping::{copy_columns, Column, Mapping};
#[allow(unused_imports)]
use crate::template::sort::{
    columns_for, inserted_all, key_views, lemma_columns_len, sort_text, KeyView,
};
use crate::template::sort::{resolve_keys, Direction, Sort, SortKey};
#[allow(unused_imports)]
use crate::template::value::{value_views, ValueView};
use crate::template::value::{Timestamp, Value};
use crate::text::{chars_of, copy_of, decimal_of, trim};
#[allow(unused_imports)]
use crate::text::{decimal, trimmed};
#[allow(unused_imports)]
use vstd::utf8::{decode_utf8, encode_utf8, valid_utf8};
#[allow(unused_imports)]
use crate::template::sort::{distinct, sorts_by};

verus! {

/// The format that is written.
pub const VERSION: u8 = 1;

/// One component of a position: a sort key and the value that the last row had for it.
#[derive(Debug, PartialEq, Eq)]
pub struct CursorKey {
    /// The field and direction that this component orders by.
    pub key: SortKey,
    /// What the last row of the previous page held there.
    pub value: Value,
}

/// A component of a position, as contracts speak of it.
pub struct MarkView {
    pub key: KeyView,
    pub value: ValueView,
}

impl View for CursorKey {
    type V = MarkView;

    open spec fn view(&self) -> MarkView {
        MarkView { key: self.key@, value: self.value@ }
    }
}

/// What a list of components holds.
pub open spec fn mark_views(keys: Seq<CursorKey>) -> Seq<MarkView> {
    keys.map_values(|key: CursorKey| key@)
}

/// The sort keys of a position.
pub open spec fn mark_keys(marks: Seq<MarkView>) -> Seq<KeyView> {
    marks.map_values(|mark: MarkView| mark.key)
}

/// The ordering that a position was taken under.
pub open spec fn recorded_sort(marks: Seq<MarkView>) -> Seq<KeyView> {
    inserted_all(Seq::empty(), mark_keys(marks))
}

impl Clone for CursorKey {
    fn clone(&self) -> (r: CursorKey)
        ensures
            r@ == self@,
    {
        CursorKey { key: self.key.clone(), value: self.value.clone() }
    }
}

/// Copies a list of components.
pub fn copy_marks(keys: &[CursorKey]) -> (r: Vec<CursorKey>)
    ensures
        mark_views(r@) == mark_views(keys@),
{
    let mut r: Vec<CursorKey> = Vec::new();
    let mut i: usize = 0;
    while i < keys.len()
        invariant
            i <= keys.len(),
            r@.len() == i,
            forall|j: int| 0 <= j < i ==> (#[trigger] r@[j])@ == keys@[j]@,
        decreases keys.len() - i,
    {
        r.push(keys[i].clone());
        i += 1;
    }
    assert(mark_views(r@) =~= mark_views(keys@));
    r
}

/// The sort keys of a list of components.
fn keys_of(keys: &[CursorKey]) -> (r: Vec<SortKey>)
    ensures
        key_views(r@) == mark_keys(mark_views(keys@)),
{
    let mut r: Vec<SortKey> = Vec::new();
    let mut i: usize = 0;
    while i < keys.len()
        invariant
            i <= keys.len(),
            r@.len() == i,
            forall|j: int| 0 <= j < i ==> (#[trigger] r@[j])@ == keys@[j]@.key,
        decreases keys.len() - i,
    {
        r.push(keys[i].key.clone());
        i += 1;
    }
    assert(key_views(r@) =~= mark_keys(mark_views(keys@)));
    r
}

// ---------------------------------------------------------------------------
// The byte format
// ---------------------------------------------------------------------------

/// Bytes with their length in front. What does not fit a four-byte length is cut.
pub open spec fn framed(b: Seq<u8>) -> Seq<u8> {
    let n = if b.len() > u32::MAX {
        u32::MAX as int
    } else {
        b.len() as int
    };
    be32(n as u32) + b.take(n)
}

/// The byte that writes a direction.
pub open spec fn direction_byte(direction: Direction) -> u8 {
    match direction {
        Direction::Asc => 0,
        Direction::Desc => 1,
    }
}

/// The bytes that write a value: a tag, then the value.
pub open spec fn value_bytes(value: ValueView) -> Seq<u8> {
    match value {
        ValueView::Bool(b) => seq![0u8, if b {
            1u8
        } else {
            0u8
        }],
        ValueView::Int(n) => seq![1u8] + be64(n as u64),
        ValueView::Float(bits) => seq![2u8] + be64(bits),
        ValueView::Text(text) => seq![3u8] + framed(encode_utf8(text)),
        ValueView::Bytes(b) => seq![4u8] + framed(b),
        ValueView::Timestamp(at) => seq![5u8] + be64(at.seconds as u64) + be32(at.nanos),
    }
}

/// The bytes that write one component.
pub open spec fn mark_bytes(mark: MarkView) -> Seq<u8> {
    seq![direction_byte(mark.key.direction)] + framed(encode_utf8(mark.key.field)) + value_bytes(
        mark.value,
    )
}

/// The bytes that write a position.
pub open spec fn encoded(marks: Seq<MarkView>) -> Seq<u8>
    decreases marks.len(),
{
    if marks.len() == 0 {
        seq![VERSION]
    } else {
        encoded(marks.drop_last()) + mark_bytes(marks.last())
    }
}

/// Why a token that ends too early is refused.
pub open spec fn truncated() -> Seq<char> {
    "ends in the middle of a value"@
}

/// The byte at `at`, and where to read on.
pub open spec fn read_byte(b: Seq<u8>, at: int) -> Result<(u8, int), Seq<char>> {
    if 0 <= at < b.len() {
        Ok((b[at], at + 1))
    } else {
        Err(truncated())
    }
}

/// The `n` bytes at `at`, and where to read on.
pub open spec fn read_run(b: Seq<u8>, at: int, n: int) -> Result<(Seq<u8>, int), Seq<char>> {
    if 0 <= at && at + n <= b.len() {
        Ok((b.subrange(at, at + n), at + n))
    } else {
        Err(truncated())
    }
}

/// The bytes at `at` that have their length in front, and where to read on.
pub open spec fn read_frame(b: Seq<u8>, at: int) -> Result<(Seq<u8>, int), Seq<char>> {
    match read_run(b, at, 4) {
        Err(message) => Err(message),
        Ok((length, next)) => read_run(b, next, of_be32(length) as int),
    }
}

/// The text at `at`, and where to read on.
pub open spec fn read_text(b: Seq<u8>, at: int) -> Result<(Seq<char>, int), Seq<char>> {
    match read_frame(b, at) {
        Err(message) => Err(message),
        Ok((bytes, next)) => if valid_utf8(bytes) {
            Ok((decode_utf8(bytes), next))
        } else {
            Err("contains text that is not UTF-8"@)
        },
    }
}

/// The direction at `at`, and where to read on.
pub open spec fn read_direction(b: Seq<u8>, at: int) -> Result<(Direction, int), Seq<char>> {
    match read_byte(b, at) {
        Err(message) => Err(message),
        Ok((byte, next)) => if byte == 0 {
            Ok((Direction::Asc, next))
        } else if byte == 1 {
            Ok((Direction::Desc, next))
        } else {
            Err("unknown direction "@ + decimal(byte as nat))
        },
    }
}

/// The value at `at`, and where to read on.
pub open spec fn read_value(b: Seq<u8>, at: int) -> Result<(ValueView, int), Seq<char>> {
    match read_byte(b, at) {
        Err(message) => Err(message),
        Ok((tag, next)) => if tag == 0 {
            match read_byte(b, next) {
                Err(message) => Err(message),
                Ok((byte, end)) => Ok((ValueView::Bool(byte != 0), end)),
            }
        } else if tag == 1 {
            match read_run(b, next, 8) {
                Err(message) => Err(message),
                Ok((run, end)) => Ok((ValueView::Int(of_be64(run) as i64), end)),
            }
        } else if tag == 2 {
            match read_run(b, next, 8) {
                Err(message) => Err(message),
                Ok((run, end)) => Ok((ValueView::Float(of_be64(run)), end)),
            }
        } else if tag == 3 {
            match read_text(b, next) {
                Err(message) => Err(message),
                Ok((text, end)) => Ok((ValueView::Text(text), end)),
            }
        } else if tag == 4 {
            match read_frame(b, next) {
                Err(message) => Err(message),
                Ok((run, end)) => Ok((ValueView::Bytes(run), end)),
            }
        } else if tag == 5 {
            match read_run(b, next, 8) {
                Err(message) => Err(message),
                Ok((seconds, mid)) => match read_run(b, mid, 4) {
                    Err(message) => Err(message),
                    Ok((nanos, end)) => {
                        let at = Timestamp {
                            seconds: of_be64(seconds) as i64,
                            nanos: of_be32(nanos),
                        };
                        if is_instant(at.seconds, at.nanos) {
                            Ok((ValueView::Timestamp(at), end))
                        } else {
                            Err("timestamp out of range"@)
                        }
                    },
                },
            }
        } else {
            Err("unknown value type "@ + decimal(tag as nat))
        },
    }
}

/// The component at `at`, and where to read on.
pub open spec fn read_mark(b: Seq<u8>, at: int) -> Result<(MarkView, int), Seq<char>> {
    match read_direction(b, at) {
        Err(message) => Err(message),
        Ok((direction, a)) => match read_text(b, a) {
            Err(message) => Err(message),
            Ok((field, c)) => match read_value(b, c) {
                Err(message) => Err(message),
                Ok((value, end)) => Ok(
                    (MarkView { key: KeyView { field, direction }, value }, end),
                ),
            },
        },
    }
}

/// Reading a component goes forward.
pub proof fn lemma_read_mark_advances(b: Seq<u8>, at: int)
    ensures
        read_mark(b, at) matches Ok((mark, end)) ==> 0 <= at < end <= b.len(),
{
}

/// The components from `at` on, behind those that were read.
pub open spec fn read_marks(b: Seq<u8>, at: int, marks: Seq<MarkView>) -> Result<
    Seq<MarkView>,
    Seq<char>,
>
    decreases b.len() - at,
{
    if at >= b.len() {
        Ok(marks)
    } else {
        proof {
            lemma_read_mark_advances(b, at);
        }
        match read_mark(b, at) {
            Err(message) => Err(message),
            Ok((mark, end)) => read_marks(b, end, marks.push(mark)),
        }
    }
}

/// The position that some bytes write, or why they write none.
pub open spec fn decoded(b: Seq<u8>) -> Result<Seq<MarkView>, Seq<char>> {
    match read_byte(b, 0) {
        Err(message) => Err(message),
        Ok((version, next)) => if version == VERSION {
            read_marks(b, next, Seq::empty())
        } else {
            Err(
                "written by version "@ + decimal(version as nat)
                    + " of this format, which this build does not read"@,
            )
        },
    }
}

fn write_framed(out: &mut Vec<u8>, bytes: &[u8])
    ensures
        final(out)@ == old(out)@ + framed(bytes@),
{
    let ghost start = out@;
    let n: usize = if bytes.len() > 0xffff_ffff {
        0xffff_ffff
    } else {
        bytes.len()
    };
    let head = slice_subrange(bytes, 0, n);
    assert(head@ =~= bytes@.take(n as int));
    write_be32(out, n as u32);
    extend(out, head);
    assert(out@ =~= start + framed(bytes@));
}

fn write_value(out: &mut Vec<u8>, value: &Value)
    ensures
        final(out)@ == old(out)@ + value_bytes(value@),
{
    let ghost start = out@;
    match value {
        Value::Bool(b) => {
            out.push(0);
            out.push(if *b {
                1
            } else {
                0
            });
        },
        Value::Int(n) => {
            out.push(1);
            write_be64(out, *n as u64);
        },
        Value::Float(bits) => {
            out.push(2);
            write_be64(out, *bits);
        },
        Value::Text(text) => {
            out.push(3);
            write_framed(out, text.as_str().as_bytes());
        },
        Value::Bytes(bytes) => {
            out.push(4);
            write_framed(out, bytes.as_slice());
        },
        Value::Timestamp(at) => {
            out.push(5);
            write_be64(out, at.seconds as u64);
            write_be32(out, at.nanos);
        },
    }
    assert(out@ =~= start + value_bytes(value@));
}

/// Writes a position as bytes.
pub fn encode(keys: &[CursorKey]) -> (out: Vec<u8>)
    ensures
        out@ == encoded(mark_views(keys@)),
        out@.len() > 0,
{
    let mut out: Vec<u8> = Vec::new();
    out.push(VERSION);
    let mut i: usize = 0;
    assert(mark_views(keys@).take(0) =~= Seq::<MarkView>::empty());
    assert(out@ =~= seq![VERSION]);
    while i < keys.len()
        invariant
            i <= keys.len(),
            out@ == encoded(mark_views(keys@).take(i as int)),
            out@.len() > 0,
        decreases keys.len() - i,
    {
        let ghost start = out@;
        let ghost mark = keys@[i as int]@;
        out.push(
            match keys[i].key.direction {
                Direction::Asc => 0,
                Direction::Desc => 1,
            },
        );
        write_framed(&mut out, keys[i].key.field.as_str().as_bytes());
        write_value(&mut out, &keys[i].value);
        proof {
            let now = mark_views(keys@).take(i + 1);
            assert(now.drop_last() =~= mark_views(keys@).take(i as int));
            assert(now.last() == mark);
            assert(out@ =~= start + mark_bytes(mark));
        }
        i += 1;
    }
    assert(mark_views(keys@).take(i as int) =~= mark_views(keys@));
    out
}

/// The error that carries `message`.
pub open spec fn token_error(error: Error, message: Seq<char>) -> bool {
    error matches Error::Cursor(text) && text@ == message
}

/// A bounds-checked walk over a token. Tokens come from clients, so every read assumes that
/// the bytes are wrong.
struct Reader<'a> {
    bytes: &'a [u8],
    at: usize,
}

impl<'a> Reader<'a> {
    spec fn wf(self) -> bool {
        self.at <= self.bytes@.len()
    }

    fn done(&self) -> (b: bool)
        ensures
            b == (self.at >= self.bytes@.len()),
    {
        self.at >= self.bytes.len()
    }

    fn byte(&mut self) -> (r: Result<u8, Error>)
        requires
            old(self).wf(),
        ensures
            final(self).wf(),
            final(self).bytes == old(self).bytes,
            match (r, read_byte(old(self).bytes@, old(self).at as int)) {
                (Ok(byte), Ok((found, end))) => byte == found && final(self).at == end,
                (Err(error), Err(message)) => token_error(error, message),
                _ => false,
            },
    {
        if self.at < self.bytes.len() {
            let byte = self.bytes[self.at];
            self.at = self.at + 1;
            Ok(byte)
        } else {
            Err(Error::Cursor(copy_of("ends in the middle of a value")))
        }
    }

    fn take(&mut self, len: usize) -> (r: Result<&'a [u8], Error>)
        requires
            old(self).wf(),
        ensures
            final(self).wf(),
            final(self).bytes == old(self).bytes,
            match (r, read_run(old(self).bytes@, old(self).at as int, len as int)) {
                (Ok(run), Ok((found, end))) => run@ == found && final(self).at == end,
                (Err(error), Err(message)) => token_error(error, message),
                _ => false,
            },
    {
        if self.bytes.len() - self.at < len {
            return Err(Error::Cursor(copy_of("ends in the middle of a value")));
        }
        let end: usize = self.at + len;
        let run = slice_subrange(self.bytes, self.at, end);
        self.at = end;
        Ok(run)
    }

    fn frame(&mut self) -> (r: Result<&'a [u8], Error>)
        requires
            old(self).wf(),
        ensures
            final(self).wf(),
            final(self).bytes == old(self).bytes,
            match (r, read_frame(old(self).bytes@, old(self).at as int)) {
                (Ok(run), Ok((found, end))) => run@ == found && final(self).at == end,
                (Err(error), Err(message)) => token_error(error, message),
                _ => false,
            },
    {
        match self.take(4) {
            Err(error) => Err(error),
            Ok(length) => {
                let n: u32 = read_be32(length);
                self.take(n as usize)
            },
        }
    }

    fn string(&mut self) -> (r: Result<String, Error>)
        requires
            old(self).wf(),
        ensures
            final(self).wf(),
            final(self).bytes == old(self).bytes,
            match (r, read_text(old(self).bytes@, old(self).at as int)) {
                (Ok(text), Ok((found, end))) => text@ == found && final(self).at == end,
                (Err(error), Err(message)) => token_error(error, message),
                _ => false,
            },
    {
        match self.frame() {
            Err(error) => Err(error),
            Ok(run) => match text_of(copy_bytes(run)) {
                Some(text) => Ok(text),
                None => Err(Error::Cursor(copy_of("contains text that is not UTF-8"))),
            },
        }
    }

    fn direction(&mut self) -> (r: Result<Direction, Error>)
        requires
            old(self).wf(),
        ensures
            final(self).wf(),
            final(self).bytes == old(self).bytes,
            match (r, read_direction(old(self).bytes@, old(self).at as int)) {
                (Ok(direction), Ok((found, end))) => direction == found && final(self).at == end,
                (Err(error), Err(message)) => token_error(error, message),
                _ => false,
            },
    {
        match self.byte() {
            Err(error) => Err(error),
            Ok(byte) => if byte == 0 {
                Ok(Direction::Asc)
            } else if byte == 1 {
                Ok(Direction::Desc)
            } else {
                let mut message = copy_of("unknown direction ");
                message.append(decimal_of(byte as u128).as_str());
                Err(Error::Cursor(message))
            },
        }
    }

    fn value(&mut self) -> (r: Result<Value, Error>)
        requires
            old(self).wf(),
        ensures
            final(self).wf(),
            final(self).bytes == old(self).bytes,
            match (r, read_value(old(self).bytes@, old(self).at as int)) {
                (Ok(value), Ok((found, end))) => value@ == found && final(self).at == end,
                (Err(error), Err(message)) => token_error(error, message),
                _ => false,
            },
    {
        let tag: u8 = match self.byte() {
            Err(error) => {
                return Err(error);
            },
            Ok(tag) => tag,
        };
        if tag == 0 {
            match self.byte() {
                Err(error) => Err(error),
                Ok(byte) => Ok(Value::Bool(byte != 0)),
            }
        } else if tag == 1 {
            match self.take(8) {
                Err(error) => Err(error),
                Ok(run) => Ok(Value::Int(read_be64(run) as i64)),
            }
        } else if tag == 2 {
            match self.take(8) {
                Err(error) => Err(error),
                Ok(run) => Ok(Value::Float(read_be64(run))),
            }
        } else if tag == 3 {
            match self.string() {
                Err(error) => Err(error),
                Ok(text) => Ok(Value::Text(text)),
            }
        } else if tag == 4 {
            match self.frame() {
                Err(error) => Err(error),
                Ok(run) => Ok(Value::Bytes(copy_bytes(run))),
            }
        } else if tag == 5 {
            let seconds: i64 = match self.take(8) {
                Err(error) => {
                    return Err(error);
                },
                Ok(run) => read_be64(run) as i64,
            };
            let nanos: u32 = match self.take(4) {
                Err(error) => {
                    return Err(error);
                },
                Ok(run) => read_be32(run),
            };
            if names_instant(seconds, nanos) {
                Ok(Value::Timestamp(Timestamp { seconds, nanos }))
            } else {
                Err(Error::Cursor(copy_of("timestamp out of range")))
            }
        } else {
            let mut message = copy_of("unknown value type ");
            message.append(decimal_of(tag as u128).as_str());
            Err(Error::Cursor(message))
        }
    }
}

/// Reads the bytes of a token.
pub fn decode(bytes: &[u8]) -> (r: Result<Vec<CursorKey>, Error>)
    ensures
        match (r, decoded(bytes@)) {
            (Ok(keys), Ok(marks)) => mark_views(keys@) == marks,
            (Err(error), Err(message)) => token_error(error, message),
            _ => false,
        },
{
    let mut reader = Reader { bytes, at: 0 };
    match reader.byte() {
        Err(error) => {
            return Err(error);
        },
        Ok(version) => {
            if version != VERSION {
                let mut message = copy_of("written by version ");
                message.append(decimal_of(version as u128).as_str());
                message.append(" of this format, which this build does not read");
                return Err(Error::Cursor(message));
            }
        },
    }
    let mut keys: Vec<CursorKey> = Vec::new();
    assert(mark_views(keys@) =~= Seq::<MarkView>::empty());
    while !reader.done()
        invariant
            reader.wf(),
            reader.bytes == bytes,
            decoded(bytes@) == read_marks(bytes@, reader.at as int, mark_views(keys@)),
        decreases bytes@.len() - reader.at,
    {
        proof {
            lemma_read_mark_advances(bytes@, reader.at as int);
        }
        let direction = match reader.direction() {
            Err(error) => {
                return Err(error);
            },
            Ok(direction) => direction,
        };
        let field = match reader.string() {
            Err(error) => {
                return Err(error);
            },
            Ok(field) => field,
        };
        let value = match reader.value() {
            Err(error) => {
                return Err(error);
            },
            Ok(value) => value,
        };
        let ghost held = mark_views(keys@);
        let key = CursorKey { key: SortKey { field, direction }, value };
        keys.push(key);
        assert(mark_views(keys@) =~= held.push(key@));
    }
    Ok(keys)
}

// ---------------------------------------------------------------------------
// A token is read as it was written
// ---------------------------------------------------------------------------

/// What a token can carry whole: text and bytes whose length four bytes can write, and
/// instants.
pub open spec fn fits(mark: MarkView) -> bool {
    &&& encode_utf8(mark.key.field).len() <= u32::MAX
    &&& match mark.value {
        ValueView::Text(text) => encode_utf8(text).len() <= u32::MAX,
        ValueView::Bytes(b) => b.len() <= u32::MAX,
        ValueView::Timestamp(at) => is_instant(at.seconds, at.nanos),
        _ => true,
    }
}

/// Every component fits.
pub open spec fn all_fit(marks: Seq<MarkView>) -> bool {
    forall|i: int| 0 <= i < marks.len() ==> fits(#[trigger] marks[i])
}

/// `part` stands in `b` at `at`.
spec fn holds(b: Seq<u8>, at: int, part: Seq<u8>) -> bool {
    0 <= at && at + part.len() <= b.len() && b.subrange(at, at + part.len()) == part
}

proof fn lemma_holds_split(b: Seq<u8>, at: int, x: Seq<u8>, y: Seq<u8>)
    requires
        holds(b, at, x + y),
    ensures
        holds(b, at, x),
        holds(b, at + x.len(), y),
{
    let all = b.subrange(at, at + (x + y).len());
    assert(b.subrange(at, at + x.len()) =~= all.subrange(0, x.len() as int));
    assert((x + y).subrange(0, x.len() as int) =~= x);
    assert(b.subrange(at + x.len(), at + x.len() + y.len()) =~= all.subrange(
        x.len() as int,
        (x.len() + y.len()) as int,
    ));
    assert((x + y).subrange(x.len() as int, (x.len() + y.len()) as int) =~= y);
}

proof fn lemma_holds_byte(b: Seq<u8>, at: int, x: u8)
    requires
        holds(b, at, seq![x]),
    ensures
        read_byte(b, at) == Ok::<(u8, int), Seq<char>>((x, at + 1)),
{
    assert(b.subrange(at, at + 1)[0] == seq![x][0]);
}

proof fn lemma_read_frame(b: Seq<u8>, at: int, x: Seq<u8>)
    requires
        x.len() <= u32::MAX,
        holds(b, at, framed(x)),
    ensures
        read_frame(b, at) == Ok::<(Seq<u8>, int), Seq<char>>((x, at + framed(x).len())),
{
    let n = x.len() as u32;
    assert(x.take(x.len() as int) =~= x);
    lemma_holds_split(b, at, be32(n), x);
    lemma_be32(n);
}

proof fn lemma_read_text(b: Seq<u8>, at: int, text: Seq<char>)
    requires
        encode_utf8(text).len() <= u32::MAX,
        holds(b, at, framed(encode_utf8(text))),
    ensures
        read_text(b, at) == Ok::<(Seq<char>, int), Seq<char>>(
            (text, at + framed(encode_utf8(text)).len()),
        ),
{
    lemma_read_frame(b, at, encode_utf8(text));
    vstd::utf8::encode_utf8_valid_utf8(text);
    vstd::utf8::encode_utf8_decode_utf8(text);
}

proof fn lemma_read_value(b: Seq<u8>, at: int, mark: MarkView)
    requires
        fits(mark),
        holds(b, at, value_bytes(mark.value)),
    ensures
        read_value(b, at) == Ok::<(ValueView, int), Seq<char>>(
            (mark.value, at + value_bytes(mark.value).len()),
        ),
{
    match mark.value {
        ValueView::Bool(v) => {
            let x = if v {
                1u8
            } else {
                0u8
            };
            assert(seq![0u8, x] =~= seq![0u8] + seq![x]);
            lemma_holds_split(b, at, seq![0u8], seq![x]);
            lemma_holds_byte(b, at, 0u8);
            lemma_holds_byte(b, at + 1, x);
        },
        ValueView::Int(n) => {
            lemma_holds_split(b, at, seq![1u8], be64(n as u64));
            lemma_holds_byte(b, at, 1u8);
            lemma_be64(n as u64);
            lemma_signed(n);
        },
        ValueView::Float(bits) => {
            lemma_holds_split(b, at, seq![2u8], be64(bits));
            lemma_holds_byte(b, at, 2u8);
            lemma_be64(bits);
        },
        ValueView::Text(text) => {
            lemma_holds_split(b, at, seq![3u8], framed(encode_utf8(text)));
            lemma_holds_byte(b, at, 3u8);
            lemma_read_text(b, at + 1, text);
        },
        ValueView::Bytes(x) => {
            lemma_holds_split(b, at, seq![4u8], framed(x));
            lemma_holds_byte(b, at, 4u8);
            lemma_read_frame(b, at + 1, x);
        },
        ValueView::Timestamp(t) => {
            lemma_holds_split(b, at, seq![5u8] + be64(t.seconds as u64), be32(t.nanos));
            lemma_holds_split(b, at, seq![5u8], be64(t.seconds as u64));
            lemma_holds_byte(b, at, 5u8);
            lemma_be64(t.seconds as u64);
            lemma_signed(t.seconds);
            lemma_be32(t.nanos);
        },
    }
}

proof fn lemma_read_mark(b: Seq<u8>, at: int, mark: MarkView)
    requires
        fits(mark),
        holds(b, at, mark_bytes(mark)),
    ensures
        read_mark(b, at) == Ok::<(MarkView, int), Seq<char>>((mark, at + mark_bytes(mark).len())),
{
    let d = seq![direction_byte(mark.key.direction)];
    let f = framed(encode_utf8(mark.key.field));
    lemma_holds_split(b, at, d + f, value_bytes(mark.value));
    lemma_holds_split(b, at, d, f);
    lemma_holds_byte(b, at, direction_byte(mark.key.direction));
    lemma_read_text(b, at + 1, mark.key.field);
    lemma_read_value(b, at + 1 + f.len(), mark);
}

#[verifier::spinoff_prover]
#[verifier::rlimit(60)]
proof fn lemma_reads_on(b: Seq<u8>, marks: Seq<MarkView>, i: int)
    requires
        0 <= i <= marks.len(),
        b == encoded(marks),
        all_fit(marks),
    ensures
        encoded(marks.take(i)).len() <= b.len(),
        b.take(encoded(marks.take(i)).len() as int) == encoded(marks.take(i)),
        read_marks(b, encoded(marks.take(i)).len() as int, marks.take(i)) == Ok::<
            Seq<MarkView>,
            Seq<char>,
        >(marks),
    decreases marks.len() - i,
{
    if i == marks.len() {
        assert(marks.take(i) =~= marks);
        assert(b.take(b.len() as int) =~= b);
    } else {
        lemma_reads_on(b, marks, i + 1);
        let now = marks.take(i);
        let next = marks.take(i + 1);
        assert(next.drop_last() =~= now);
        assert(next.last() == marks[i]);
        let at = encoded(now).len() as int;
        let part = mark_bytes(marks[i]);
        assert(encoded(next) == encoded(now) + part);
        let head = b.take(encoded(next).len() as int);
        assert(b.take(at) =~= head.take(at));
        assert((encoded(now) + part).take(at) =~= encoded(now));
        assert(b.subrange(at, at + part.len()) =~= head.subrange(at, at + part.len()));
        assert((encoded(now) + part).subrange(at, at + part.len()) =~= part);
        assert(holds(b, at, part));
        lemma_read_mark(b, at, marks[i]);
        assert(now.push(marks[i]) =~= next);
    }
}

/// The bytes of a position are read back as the position, whatever values it holds.
pub proof fn law_bytes_read_back(marks: Seq<MarkView>)
    requires
        all_fit(marks),
    ensures
        decoded(encoded(marks)) == Ok::<Seq<MarkView>, Seq<char>>(marks),
{
    lemma_reads_on(encoded(marks), marks, 0);
    assert(marks.take(0) =~= Seq::<MarkView>::empty());
    let b = encoded(marks);
    assert(b.take(1)[0] == seq![VERSION][0]);
}

// ---------------------------------------------------------------------------
// The condition that selects the rows after a position
// ---------------------------------------------------------------------------

/// The operator that leads past a value.
pub open spec fn past(direction: Direction) -> Seq<char> {
    match direction {
        Direction::Asc => " > "@,
        Direction::Desc => " < "@,
    }
}

/// The first `n` columns held equal to the position, each followed by `AND`.
pub open spec fn held_equal(
    marks: Seq<MarkView>,
    columns: Seq<ColumnView>,
    mark: char,
    n: int,
) -> Seq<Piece<ValueView>>
    decreases n,
{
    if n <= 0 {
        Seq::empty()
    } else {
        (held_equal(marks, columns, mark, n - 1) + chars(quoted(columns[n - 1].name, mark)) + chars(
            " = "@,
        )).push(Piece::Bind(marks[n - 1].value)) + chars(" AND "@)
    }
}

/// The rows that tie on the columns before `at` and lie past the position there.
pub open spec fn branch(
    marks: Seq<MarkView>,
    columns: Seq<ColumnView>,
    mark: char,
    at: int,
) -> Seq<Piece<ValueView>> {
    (chars("("@) + held_equal(marks, columns, mark, at) + chars(quoted(columns[at].name, mark))
        + chars(past(marks[at].key.direction))).push(Piece::Bind(marks[at].value)) + chars(")"@)
}

/// The first `n` branches with `OR` between them.
pub open spec fn branches(
    marks: Seq<MarkView>,
    columns: Seq<ColumnView>,
    mark: char,
    n: int,
) -> Seq<Piece<ValueView>>
    decreases n,
{
    if n <= 0 {
        Seq::empty()
    } else if n == 1 {
        branch(marks, columns, mark, 0)
    } else {
        branches(marks, columns, mark, n - 1) + chars(" OR "@) + branch(marks, columns, mark, n - 1)
    }
}

/// The condition that selects the rows after a position, in full.
pub open spec fn seek_sql(marks: Seq<MarkView>, columns: Seq<ColumnView>, mark: char) -> Seq<
    Piece<ValueView>,
> {
    chars("("@) + branches(marks, columns, mark, marks.len() as int) + chars(")"@)
}

/// The first component at or after `i` whose value does not have its column's type.
pub open spec fn mismatch_from(marks: Seq<MarkView>, columns: Seq<ColumnView>, i: int) -> Option<
    int,
>
    decreases marks.len() - i,
{
    if !(0 <= i < marks.len()) {
        None
    } else if columns[i].ty != marks[i].value.ty() {
        Some(i)
    } else {
        mismatch_from(marks, columns, i + 1)
    }
}

/// Why a value of the wrong type is refused.
pub open spec fn mismatch_text(mark: MarkView, column: ColumnView) -> Seq<char> {
    "holds "@ + mark.value.ty().text() + " for `"@ + mark.key.field + "`, which is "@
        + column.ty.text()
}

/// Why an ordering without a unique column is refused.
pub open spec fn not_unique_text(keys: Seq<KeyView>) -> Seq<char> {
    "`"@ + sort_text(keys)
        + "` names no unique column, so a page token cannot identify a row: append one with `Sort::asc`, and declare it with `QueryMapping::key`"@
}

/// One of the first `n` columns is unique.
pub open spec fn some_unique(columns: Seq<ColumnView>, n: int) -> bool {
    exists|i: int| 0 <= i < n && (#[trigger] columns[i]).unique
}

/// Why a position cannot be sought.
pub enum SeekFault {
    /// A value does not have its column's type.
    Mismatch(Seq<char>),
    /// No column is unique.
    NotUnique(Seq<char>),
}

/// The condition for a position, or why there is none. The start of a listing has an empty
/// condition.
pub open spec fn sought(marks: Seq<MarkView>, columns: Seq<ColumnView>, mark: char) -> Result<
    Seq<Piece<ValueView>>,
    SeekFault,
> {
    if marks.len() == 0 {
        Ok(Seq::empty())
    } else {
        match mismatch_from(marks, columns, 0) {
            Some(i) => Err(SeekFault::Mismatch(mismatch_text(marks[i], columns[i]))),
            None => if some_unique(columns, marks.len() as int) {
                Ok(seek_sql(marks, columns, mark))
            } else {
                Err(SeekFault::NotUnique(not_unique_text(recorded_sort(marks))))
            },
        }
    }
}

/// The error that tells of a fault.
pub open spec fn seek_error(error: Error, fault: SeekFault) -> bool {
    match fault {
        SeekFault::Mismatch(message) => error matches Error::Cursor(text) && text@ == message,
        SeekFault::NotUnique(message) => error matches Error::NotUnique(text) && text@ == message,
    }
}

/// Tells that a value does not have its column's type.
pub fn mismatch(key: &CursorKey, column: &Column) -> (r: Error)
    ensures
        token_error(r, mismatch_text(key@, column@)),
{
    let mut message = copy_of("holds ");
    message.append(key.value.ty().name());
    message.append(" for `");
    message.append(key.key.field.as_str());
    message.append("`, which is ");
    message.append(column.ty.name());
    Error::Cursor(message)
}

fn push_branch<DB: Dialect>(
    out: &mut QueryFragment<DB, Value>,
    keys: &[CursorKey],
    columns: &[Column],
    at: usize,
)
    requires
        old(out).wf(),
        at < keys@.len(),
        keys@.len() <= columns@.len(),
    ensures
        final(out).wf(),
        sql_of(*final(out)) == sql_of(*old(out)) + branch(
            mark_views(keys@),
            column_views(columns@),
            DB::mark(),
            at as int,
        ),
{
    let ghost marks = mark_views(keys@);
    let ghost cols = column_views(columns@);
    let ghost start = sql_of(*out);
    let quote = DB::quote();
    add_text(out, "(");
    let mut i: usize = 0;
    let ghost open = chars::<ValueView>("("@);
    assert(start + open + held_equal(marks, cols, quote, 0) =~= start + open);
    while i < at
        invariant
            i <= at,
            at < keys@.len(),
            keys@.len() <= columns@.len(),
            marks == mark_views(keys@),
            cols == column_views(columns@),
            out.wf(),
            open == chars::<ValueView>("("@),
            sql_of(*out) == start + open + held_equal(marks, cols, quote, i as int),
        decreases at - i,
    {
        let ghost before = sql_of(*out);
        let name = quote_name(columns[i].name.as_str(), quote);
        assert(name@ == quoted(cols[i as int].name, quote));
        add_text(out, name.as_str());
        add_text(out, " = ");
        add_value(out, keys[i].value.clone());
        add_text(out, " AND ");
        proof {
            let prior = held_equal(marks, cols, quote, i as int);
            assert(marks[i as int].value == keys@[i as int].value@);
            assert(sql_of(*out) =~= start + open + held_equal(marks, cols, quote, i + 1));
        }
        i += 1;
    }
    let name = quote_name(columns[at].name.as_str(), quote);
    assert(name@ == quoted(cols[at as int].name, quote));
    add_text(out, name.as_str());
    assert(marks[at as int] == keys@[at as int]@);
    match keys[at].key.direction {
        Direction::Asc => {
            add_text(out, " > ");
        },
        Direction::Desc => {
            add_text(out, " < ");
        },
    }
    add_value(out, keys[at].value.clone());
    add_text(out, ")");
    assert(sql_of(*out) =~= start + branch(marks, cols, quote, at as int));
}

/// Renders the condition that selects the rows after a position.
///
/// Always a chain of `OR`, never a comparison of row values: one works only where every key
/// runs the same way.
pub fn seek<DB: Dialect>(keys: &[CursorKey], columns: &[Column]) -> (r: Result<
    QueryFragment<DB, Value>,
    Error,
>)
    requires
        keys@.len() <= columns@.len(),
    ensures
        match (r, sought(mark_views(keys@), column_views(columns@), DB::mark())) {
            (Ok(fragment), Ok(sql)) => fragment.wf() && sql_of(fragment) == sql,
            (Err(error), Err(fault)) => seek_error(error, fault),
            _ => false,
        },
{
    let ghost marks = mark_views(keys@);
    let ghost cols = column_views(columns@);
    let mut fragment = QueryFragment::new();
    assert(sql_of(fragment) =~= Seq::<Piece<ValueView>>::empty());
    if keys.len() == 0 {
        return Ok(fragment);
    }
    let mut total = false;
    let mut i: usize = 0;
    while i < keys.len()
        invariant
            i <= keys@.len(),
            keys@.len() <= columns@.len(),
            keys@.len() > 0,
            marks == mark_views(keys@),
            cols == column_views(columns@),
            mismatch_from(marks, cols, 0) == mismatch_from(marks, cols, i as int),
            total == some_unique(cols, i as int),
        decreases keys.len() - i,
    {
        assert(marks[i as int] == keys@[i as int]@);
        assert(cols[i as int] == columns@[i as int]@);
        if columns[i].ty != keys[i].value.ty() {
            return Err(mismatch(&keys[i], &columns[i]));
        }
        if columns[i].unique {
            total = true;
            assert(cols[i as int].unique);
        }
        proof {
            if some_unique(cols, i + 1) && !total {
                let j = choose|j: int| 0 <= j < i + 1 && (#[trigger] cols[j]).unique;
                assert(j < i);
            }
        }
        i += 1;
    }
    if !total {
        let sort = Sort::from_keys(keys_of(keys));
        let mut message = copy_of("`");
        message.append(sort.text().as_str());
        message.append(
            "` names no unique column, so a page token cannot identify a row: append one with `Sort::asc`, and declare it with `QueryMapping::key`",
        );
        return Err(Error::NotUnique(message));
    }
    add_text(&mut fragment, "(");
    let ghost open = chars::<ValueView>("("@);
    assert(sql_of(fragment) =~= open);
    let mut at: usize = 0;
    assert(open + branches(marks, cols, DB::mark(), 0) =~= open);
    while at < keys.len()
        invariant
            at <= keys@.len(),
            keys@.len() <= columns@.len(),
            marks == mark_views(keys@),
            cols == column_views(columns@),
            open == chars::<ValueView>("("@),
            fragment.wf(),
            sql_of(fragment) == open + branches(marks, cols, DB::mark(), at as int),
        decreases keys.len() - at,
    {
        if at > 0 {
            add_text(&mut fragment, " OR ");
        }
        push_branch(&mut fragment, keys, columns, at);
        proof {
            assert(sql_of(fragment) =~= open + branches(marks, cols, DB::mark(), at + 1));
        }
        at += 1;
    }
    add_text(&mut fragment, ")");
    assert(sql_of(fragment) =~= seek_sql(marks, cols, DB::mark()));
    Ok(fragment)
}

// ---------------------------------------------------------------------------
// The cursor
// ---------------------------------------------------------------------------

/// Where a page stopped, and the ordering that it was taken under.
///
/// A token is no claim to integrity: anyone can decode one, change it and encode it again.
/// The ordering that it records is a check against a confused client, not a hostile one.
#[derive(Debug, PartialEq, Eq)]
pub struct Cursor {
    sort: Sort,
    keys: Vec<CursorKey>,
    token: String,
    columns: Option<Vec<Column>>,
}

/// A cursor, as contracts speak of it.
pub struct CursorView {
    pub sort: Seq<KeyView>,
    pub marks: Seq<MarkView>,
    pub token: Seq<char>,
    pub columns: Option<Seq<ColumnView>>,
}

impl View for Cursor {
    type V = CursorView;

    closed spec fn view(&self) -> CursorView {
        CursorView {
            sort: self.sort@,
            marks: mark_views(self.keys@),
            token: self.token@,
            columns: match self.columns {
                Some(columns) => Some(column_views(columns@)),
                None => None,
            },
        }
    }
}

impl Clone for Cursor {
    fn clone(&self) -> (r: Cursor)
        ensures
            r@ == self@,
    {
        let columns = match &self.columns {
            Some(columns) => Some(copy_columns(columns.as_slice())),
            None => None,
        };
        Cursor {
            sort: self.sort.clone(),
            keys: copy_marks(self.keys.as_slice()),
            token: copy_of(self.token.as_str()),
            columns,
        }
    }
}

/// The keys that a cursor pages by: those of its position, or those of its ordering at the
/// start of a listing.
pub open spec fn paged_by(cursor: CursorView) -> Seq<KeyView> {
    if cursor.marks.len() == 0 {
        cursor.sort
    } else {
        mark_keys(cursor.marks)
    }
}

/// The start of a listing under `sort`.
pub open spec fn at_start(sort: Seq<KeyView>) -> CursorView {
    CursorView { sort, marks: Seq::empty(), token: Seq::empty(), columns: None }
}

/// What a token stands for, or why it is refused. A blank token is the first page.
pub open spec fn cursor_of(token: Seq<char>) -> Result<CursorView, Seq<char>> {
    if trimmed(token).len() == 0 {
        Ok(at_start(Seq::empty()))
    } else {
        match base64_url_read(token) {
            Err(message) => Err("not base64url: "@ + message),
            Ok(bytes) => match decoded(bytes) {
                Err(message) => Err(message),
                Ok(marks) => Ok(
                    CursorView { sort: recorded_sort(marks), marks, token, columns: None },
                ),
            },
        }
    }
}

/// A position of `keys` at `values`.
pub open spec fn marks_at(keys: Seq<KeyView>, values: Seq<ValueView>) -> Seq<MarkView> {
    Seq::new(keys.len(), |i: int| MarkView { key: keys[i], value: values[i] })
}

proof fn lemma_url_safe_is_not_blank(token: Seq<char>)
    requires
        token.len() > 0,
        forall|i: int| 0 <= i < token.len() ==> url_safe(#[trigger] token[i]),
    ensures
        trimmed(token).len() > 0,
{
    assert(url_safe(token[0]));
    assert(url_safe(token[token.len() - 1]));
}

impl Cursor {
    /// The resolved columns stand in step with the keys.
    pub closed spec fn wf(self) -> bool {
        self@.columns matches Some(columns) ==> columns.len() == paged_by(self@).len()
    }

    /// A cursor that pages by `sort`, at the start of the listing.
    pub fn new(sort: &Sort) -> (r: Cursor)
        ensures
            r.wf(),
            r@ == at_start(sort@),
    {
        let r = Cursor { sort: sort.clone(), keys: Vec::new(), token: String::new(), columns: None };
        assert(r@.marks =~= Seq::<MarkView>::empty());
        assert(r@.token =~= Seq::<char>::empty());
        r
    }

    /// A cursor positioned after a row whose key values are in hand.
    pub fn after_values(&self, values: &[Value]) -> (r: Result<Cursor, Error>)
        ensures
            match r {
                Ok(cursor) => {
                    let marks = marks_at(self@.sort, value_views(values@));
                    &&& self@.sort.len() == values@.len()
                    &&& cursor.wf()
                    &&& cursor@.sort == self@.sort
                    &&& cursor@.marks == marks
                    &&& cursor@.token == base64_url(encoded(marks))
                    &&& cursor@.columns is None
                    &&& trimmed(cursor@.token).len() > 0
                    &&& forall|i: int|
                        0 <= i < cursor@.token.len() ==> url_safe(#[trigger] cursor@.token[i])
                },
                Err(error) => self@.sort.len() != values@.len() && token_error(
                    error,
                    "the ordering has "@ + decimal(self@.sort.len()) + " keys but "@ + decimal(
                        values@.len(),
                    ) + " values were given"@,
                ),
            },
    {
        let sort_keys = self.sort.keys();
        assert(key_views(sort_keys@).len() == sort_keys@.len());
        if sort_keys.len() != values.len() {
            let mut message = copy_of("the ordering has ");
            message.append(decimal_of(sort_keys.len() as u128).as_str());
            message.append(" keys but ");
            message.append(decimal_of(values.len() as u128).as_str());
            message.append(" values were given");
            return Err(Error::Cursor(message));
        }
        let mut keys: Vec<CursorKey> = Vec::new();
        let mut i: usize = 0;
        while i < sort_keys.len()
            invariant
                i <= sort_keys@.len(),
                sort_keys@.len() == values@.len(),
                keys@.len() == i,
                forall|j: int|
                    0 <= j < i ==> (#[trigger] keys@[j])@.key == sort_keys@[j]@ && keys@[j]@.value
                        == values@[j]@,
            decreases sort_keys.len() - i,
        {
            keys.push(CursorKey { key: sort_keys[i].clone(), value: values[i].clone() });
            i += 1;
        }
        assert(mark_views(keys@) =~= marks_at(self@.sort, value_views(values@))) by {
            assert forall|j: int| 0 <= j < keys@.len() implies mark_views(keys@)[j] == marks_at(
                self@.sort,
                value_views(values@),
            )[j] by {
                assert(keys@[j]@.key == sort_keys@[j]@);
                assert(self@.sort[j] == key_views(sort_keys@)[j]);
                assert(value_views(values@)[j] == values@[j]@);
            }
        }
        let bytes = encode(keys.as_slice());
        let token = write_base64(bytes.as_slice());
        proof {
            lemma_url_safe_is_not_blank(token@);
        }
        Ok(Cursor { sort: self.sort.clone(), keys, token, columns: None })
    }

    /// Resolves the keys that this cursor pages by, through `mapping`.
    pub fn resolve<M: Mapping>(self, mapping: &M) -> (r: Result<Cursor, Error>)
        ensures
            match (r, columns_for(mapping, paged_by(self@), paged_by(self@).len())) {
                (Ok(cursor), Ok(columns)) => cursor.wf() && cursor@ == (CursorView {
                    columns: Some(columns),
                    ..self@
                }),
                (Err(Error::UnknownColumn(name)), Err(field)) => name@ == field,
                _ => false,
            },
    {
        let keys = if self.keys.len() == 0 {
            crate::template::sort::copy_keys(self.sort.keys())
        } else {
            keys_of(self.keys.as_slice())
        };
        assert(key_views(keys@) == paged_by(self@));
        proof {
            lemma_columns_len(mapping, paged_by(self@), paged_by(self@).len());
        }
        match resolve_keys(mapping, keys.as_slice()) {
            Ok(columns) => {
                assert(key_views(keys@).len() == keys@.len());
                Ok(
                    Cursor {
                        sort: self.sort,
                        keys: self.keys,
                        token: self.token,
                        columns: Some(columns),
                    },
                )
            },
            Err(error) => {
                assert(key_views(keys@).len() == keys@.len());
                Err(error)
            },
        }
    }

    /// Reads a page token. A blank token is the first page.
    ///
    /// A token that [`after_values`](Self::after_values) wrote is read as the position that it
    /// was written for.
    pub fn parse(token: &str) -> (r: Result<Cursor, Error>)
        ensures
            match (r, cursor_of(token@)) {
                (Ok(cursor), Ok(found)) => cursor.wf() && cursor@ == found,
                (Err(error), Err(message)) => token_error(error, message),
                _ => false,
            },
            forall|marks: Seq<MarkView>|
                #![trigger base64_url(encoded(marks))]
                all_fit(marks) && trimmed(token@).len() > 0 && token@ == base64_url(encoded(marks))
                    ==> (r matches Ok(cursor) && cursor@.marks == marks && cursor@.sort
                    == recorded_sort(marks) && cursor@.token == token@),
    {
        let text = chars_of(token);
        if trim(text.as_slice()).len() == 0 {
            return Ok(Cursor::default());
        }
        let read = read_base64(token);
        proof {
            assert forall|marks: Seq<MarkView>|
                #![trigger base64_url(encoded(marks))]
                all_fit(marks) && token@ == base64_url(encoded(marks)) implies seen(read) == read_as(
                encoded(marks),
            ) && decoded(encoded(marks)) == Ok::<Seq<MarkView>, Seq<char>>(marks) by {
                law_bytes_read_back(marks);
            }
        }
        let bytes = match read {
            Ok(bytes) => bytes,
            Err(message) => {
                let mut text = copy_of("not base64url: ");
                text.append(message.as_str());
                return Err(Error::Cursor(text));
            },
        };
        match decode(bytes.as_slice()) {
            Err(error) => Err(error),
            Ok(keys) => {
                let sort = Sort::from_keys(keys_of(keys.as_slice()));
                Ok(Cursor { sort, keys, token: copy_of(token), columns: None })
            },
        }
    }

    /// The encoded token, to hand back to the client. Empty for the first page.
    pub fn as_str(&self) -> (r: &str)
        ensures
            r@ == self@.token,
    {
        self.token.as_str()
    }

    /// The position, key by key.
    pub fn keys(&self) -> (r: &[CursorKey])
        ensures
            mark_views(r@) == self@.marks,
    {
        self.keys.as_slice()
    }

    /// Whether this is the first page.
    pub fn is_empty(&self) -> (b: bool)
        ensures
            b == (self@.marks.len() == 0),
    {
        self.keys.len() == 0
    }

    /// The ordering that this cursor pages by. For a parsed token, the one that it was issued
    /// under.
    pub fn sort(&self) -> (r: &Sort)
        ensures
            r@ == self@.sort,
    {
        &self.sort
    }

    /// The condition that selects the rows after this position: empty on the first page, and
    /// refused where the keys were not resolved.
    pub fn to_fragment<DB: Dialect>(&self) -> (r: Result<QueryFragment<DB, Value>, Error>)
        requires
            self.wf(),
        ensures
            self@.marks.len() == 0 ==> (r matches Ok(fragment) && fragment.wf() && sql_of(fragment)
                == Seq::<Piece<ValueView>>::empty()),
            self@.marks.len() > 0 ==> match self@.columns {
                None => r matches Err(Error::Unresolved),
                Some(columns) => match (r, sought(self@.marks, columns, DB::mark())) {
                    (Ok(fragment), Ok(sql)) => fragment.wf() && sql_of(fragment) == sql,
                    (Err(error), Err(fault)) => seek_error(error, fault),
                    _ => false,
                },
            },
    {
        if self.keys.len() == 0 {
            let fragment = QueryFragment::new();
            assert(sql_of(fragment) =~= Seq::<Piece<ValueView>>::empty());
            return Ok(fragment);
        }
        match &self.columns {
            None => Err(Error::Unresolved),
            Some(columns) => seek(self.keys.as_slice(), columns.as_slice()),
        }
    }
}

impl Default for Cursor {
    fn default() -> (r: Cursor)
        ensures
            r.wf(),
            r@ == at_start(Seq::empty()),
    {
        Cursor::new(&Sort::new())
    }
}

/// The condition for a position binds one value for every comparison: the `n`th branch binds
/// the first `n` values of the position, in order.
pub proof fn law_a_branch_binds_its_prefix(
    marks: Seq<MarkView>,
    columns: Seq<ColumnView>,
    mark: char,
    at: int,
)
    requires
        0 <= at < marks.len(),
    ensures
        crate::template::fragment::bound(branch(marks, columns, mark, at)) == Seq::new(
            (at + 1) as nat,
            |i: int| marks[i].value,
        ),
{
    lemma_held_equal_binds(marks, columns, mark, at);
    let head = chars::<ValueView>("("@);
    let eq = held_equal(marks, columns, mark, at);
    crate::template::fragment::lemma_bound_add(head, eq);
    crate::template::fragment::lemma_bound_text::<ValueView>("("@);
    let upto = head + eq;
    crate::template::fragment::lemma_bound_chars(upto, quoted(columns[at].name, mark));
    let named = upto + chars(quoted(columns[at].name, mark));
    crate::template::fragment::lemma_bound_chars(named, past(marks[at].key.direction));
    let all = named + chars(past(marks[at].key.direction));
    let more = all.push(Piece::Bind(marks[at].value));
    assert(more.drop_last() =~= all);
    crate::template::fragment::lemma_bound_chars(more, ")"@);
    let want = Seq::new((at + 1) as nat, |i: int| marks[i].value);
    assert(Seq::new(at as nat, |i: int| marks[i].value).push(marks[at].value) =~= want);
    assert(Seq::<ValueView>::empty() + Seq::new(at as nat, |i: int| marks[i].value) =~= Seq::new(
        at as nat,
        |i: int| marks[i].value,
    ));
}

proof fn lemma_held_equal_binds(
    marks: Seq<MarkView>,
    columns: Seq<ColumnView>,
    mark: char,
    n: int,
)
    requires
        0 <= n <= marks.len(),
    ensures
        crate::template::fragment::bound(held_equal(marks, columns, mark, n)) == Seq::new(
            n as nat,
            |i: int| marks[i].value,
        ),
    decreases n,
{
    if n > 0 {
        lemma_held_equal_binds(marks, columns, mark, n - 1);
        let prior = held_equal(marks, columns, mark, n - 1);
        crate::template::fragment::lemma_bound_chars(prior, quoted(columns[n - 1].name, mark));
        let named = prior + chars(quoted(columns[n - 1].name, mark));
        crate::template::fragment::lemma_bound_chars(named, " = "@);
        let all = named + chars(" = "@);
        let more = all.push(Piece::Bind(marks[n - 1].value));
        assert(more.drop_last() =~= all);
        crate::template::fragment::lemma_bound_chars(more, " AND "@);
        assert(Seq::new((n - 1) as nat, |i: int| marks[i].value).push(marks[n - 1].value)
            =~= Seq::new(n as nat, |i: int| marks[i].value));
    } else {
        assert(held_equal(marks, columns, mark, n) =~= Seq::<Piece<ValueView>>::empty());
        assert(Seq::new(n as nat, |i: int| marks[i].value) =~= Seq::<ValueView>::empty());
    }
}

/// The operator that asks a check of a column.
pub open spec fn operator_for(check: Check, direction: Direction) -> Seq<char> {
    match check {
        Check::Equal => " = "@,
        Check::Beyond => past(direction),
    }
}

/// A check as SQL: a column, an operator and the value of the position.
pub open spec fn check_written(
    check: Check,
    component: MarkView,
    column: ColumnView,
    mark: char,
) -> Seq<Piece<ValueView>> {
    (chars(quoted(column.name, mark)) + chars(
        operator_for(check, component.key.direction),
    )).push(Piece::Bind(component.value))
}

/// The first `n` checks of a branch as SQL, with `AND` between them.
pub open spec fn checks_written(
    branch: Seq<Check>,
    marks: Seq<MarkView>,
    columns: Seq<ColumnView>,
    mark: char,
    n: int,
) -> Seq<Piece<ValueView>>
    decreases n,
{
    if n <= 0 {
        Seq::empty()
    } else {
        let last = check_written(branch[n - 1], marks[n - 1], columns[n - 1], mark);
        if n == 1 {
            last
        } else {
            checks_written(branch, marks, columns, mark, n - 1) + chars(" AND "@) + last
        }
    }
}

/// The first `n` branches of a condition as SQL, with `OR` between them.
pub open spec fn branches_written(
    condition: Seq<Seq<Check>>,
    marks: Seq<MarkView>,
    columns: Seq<ColumnView>,
    mark: char,
    n: int,
) -> Seq<Piece<ValueView>>
    decreases n,
{
    if n <= 0 {
        Seq::empty()
    } else {
        let checks = condition[n - 1];
        let last = chars("("@) + checks_written(
            checks,
            marks,
            columns,
            mark,
            checks.len() as int,
        ) + chars(")"@);
        if n == 1 {
            last
        } else {
            branches_written(condition, marks, columns, mark, n - 1) + chars(" OR "@) + last
        }
    }
}

/// Which components descend.
pub open spec fn descending(marks: Seq<MarkView>) -> Seq<bool> {
    marks.map_values(|component: MarkView| component.key.direction == Direction::Desc)
}

proof fn lemma_ties_written(
    marks: Seq<MarkView>,
    columns: Seq<ColumnView>,
    mark: char,
    at: int,
    n: int,
)
    requires
        0 < n <= at,
    ensures
        held_equal(marks, columns, mark, n) == checks_written(
            tie_breaker(at),
            marks,
            columns,
            mark,
            n,
        ) + chars(" AND "@),
    decreases n,
{
    if n > 1 {
        lemma_ties_written(marks, columns, mark, at, n - 1);
    }
    assert(tie_breaker(at)[n - 1] == Check::Equal);
    assert(held_equal(marks, columns, mark, 0) =~= Seq::<Piece<ValueView>>::empty());
    assert(held_equal(marks, columns, mark, n) =~= checks_written(
        tie_breaker(at),
        marks,
        columns,
        mark,
        n,
    ) + chars(" AND "@));
}

proof fn lemma_branch_written(
    marks: Seq<MarkView>,
    columns: Seq<ColumnView>,
    mark: char,
    at: int,
)
    requires
        0 <= at,
    ensures
        branch(marks, columns, mark, at) == chars("("@) + checks_written(
            tie_breaker(at),
            marks,
            columns,
            mark,
            at + 1,
        ) + chars(")"@),
{
    let checks = tie_breaker(at);
    assert(checks[at] == Check::Beyond);
    if at > 0 {
        lemma_ties_written(marks, columns, mark, at, at);
    } else {
        assert(held_equal(marks, columns, mark, 0) =~= Seq::<Piece<ValueView>>::empty());
    }
    assert(branch(marks, columns, mark, at) =~= chars("("@) + checks_written(
        checks,
        marks,
        columns,
        mark,
        at + 1,
    ) + chars(")"@));
}

proof fn lemma_branches_written(
    marks: Seq<MarkView>,
    columns: Seq<ColumnView>,
    mark: char,
    n: int,
)
    requires
        0 <= n <= marks.len(),
    ensures
        branches(marks, columns, mark, n) == branches_written(
            condition_for(marks.len()),
            marks,
            columns,
            mark,
            n,
        ),
    decreases n,
{
    if n > 0 {
        lemma_branches_written(marks, columns, mark, n - 1);
        lemma_branch_written(marks, columns, mark, n - 1);
        assert(condition_for(marks.len())[n - 1] == tie_breaker(n - 1));
    }
}

/// A page starts strictly after its position: the condition for a position writes down one
/// that holds of a row exactly where the row comes after it, each column the way it runs.
/// `signs` says how the row's columns lie to the position.
pub proof fn law_a_page_starts_strictly_after_its_position(
    marks: Seq<MarkView>,
    columns: Seq<ColumnView>,
    mark: char,
    signs: Seq<int>,
)
    requires
        signs.len() == marks.len(),
    ensures
        seek_sql(marks, columns, mark) == chars("("@) + branches_written(
            condition_for(marks.len()),
            marks,
            columns,
            mark,
            marks.len() as int,
        ) + chars(")"@),
        condition_holds(condition_for(marks.len()), signs, descending(marks)) == comes_after(
            signs,
            descending(marks),
        ),
{
    lemma_branches_written(marks, columns, mark, marks.len() as int);
    law_the_condition_selects_what_comes_after(signs, descending(marks));
}

/// A position is laid out component by component behind one byte for the format: the direction, the
/// field with its length in front, and the value behind the number of its kind. Left out is what a
/// token cannot carry whole.
#[verifier::rlimit(50)]
pub proof fn law_a_position_is_laid_out_in_order(marks: Seq<MarkView>, mark: MarkView)
    requires
        fits(mark),
    ensures
        encoded(Seq::empty()) == seq![1u8],
        encoded(marks.push(mark)) == encoded(marks) + mark_bytes(mark),
        ({
            let field = encode_utf8(mark.key.field);
            mark_bytes(mark) == seq![
                if mark.key.direction == Direction::Desc {
                    1u8
                } else {
                    0u8
                },
            ] + be32(field.len() as u32) + field + match mark.value {
                ValueView::Bool(b) => seq![0u8] + if b {
                    seq![1u8]
                } else {
                    seq![0u8]
                },
                ValueView::Int(n) => seq![1u8] + be64(n as u64),
                ValueView::Float(bits) => seq![2u8] + be64(bits),
                ValueView::Text(text) => seq![3u8] + be32(encode_utf8(text).len() as u32)
                    + encode_utf8(text),
                ValueView::Bytes(b) => seq![4u8] + be32(b.len() as u32) + b,
                ValueView::Timestamp(at) => seq![5u8] + be64(at.seconds as u64) + be32(at.nanos),
            }
        }),
{
    assert(marks.push(mark).drop_last() =~= marks);
    let field = encode_utf8(mark.key.field);
    assert(field.take(field.len() as int) =~= field);
    let head = seq![direction_byte(mark.key.direction)];
    assert(head + framed(field) =~= head + be32(field.len() as u32) + field);
    match mark.value {
        ValueView::Text(text) => {
            let t = encode_utf8(text);
            assert(t.take(t.len() as int) =~= t);
            assert(seq![3u8] + framed(t) =~= seq![3u8] + be32(t.len() as u32) + t);
        },
        ValueView::Bytes(b) => {
            assert(b.take(b.len() as int) =~= b);
            assert(seq![4u8] + framed(b) =~= seq![4u8] + be32(b.len() as u32) + b);
        },
        ValueView::Bool(b) => {
            assert(value_bytes(mark.value) =~= seq![0u8] + if b {
                seq![1u8]
            } else {
                seq![0u8]
            });
        },
        _ => {},
    }
}

/// What was never written is refused: another format, a direction or a kind of value that has no
/// number, an end in the middle of a value, text that is not UTF-8, and an instant out of range.
#[verifier::rlimit(50)]
pub proof fn law_what_was_never_written_is_refused(b: Seq<u8>, at: int)
    requires
        0 <= at,
    ensures
        b.len() == 0 || b[0] != 1 ==> decoded(b) is Err,
        at >= b.len() || b[at] > 1 ==> read_direction(b, at) is Err,
        at >= b.len() || b[at] > 5 ==> read_value(b, at) is Err,
        at < b.len() && b[at] == 0 ==> (read_value(b, at) is Ok <==> at + 2 <= b.len()),
        at < b.len() && (b[at] == 1 || b[at] == 2) ==> (read_value(b, at) is Ok <==> at + 9
            <= b.len()),
        at < b.len() && b[at] == 5 ==> (read_value(b, at) is Ok <==> at + 13 <= b.len()
            && is_instant(
            of_be64(b.subrange(at + 1, at + 9)) as i64,
            of_be32(b.subrange(at + 9, at + 13)),
        )),
        at < b.len() && b[at] == 4 ==> (read_value(b, at) is Ok <==> at + 5 <= b.len() && at + 5
            + of_be32(b.subrange(at + 1, at + 5)) <= b.len()),
        at < b.len() && b[at] == 3 ==> (read_value(b, at) is Ok <==> at + 5 <= b.len() && at + 5
            + of_be32(b.subrange(at + 1, at + 5)) <= b.len() && valid_utf8(
            b.subrange(at + 5, at + 5 + of_be32(b.subrange(at + 1, at + 5))),
        )),
{
}

/// A position is sought only where it identifies a row: every value has its column's type, and one
/// of the columns is unique. The start of a listing is sought with no condition at all.
pub proof fn law_only_a_row_can_be_sought(
    marks: Seq<MarkView>,
    columns: Seq<ColumnView>,
    mark: char,
)
    ensures
        marks.len() == 0 ==> sought(marks, columns, mark) == Ok::<
            Seq<Piece<ValueView>>,
            SeekFault,
        >(Seq::empty()),
        marks.len() > 0 ==> (sought(marks, columns, mark) is Ok <==> (forall|i: int|
            0 <= i < marks.len() ==> (#[trigger] marks[i]).value.ty() == columns[i].ty) && (exists|i: int|
            0 <= i < marks.len() && (#[trigger] columns[i]).unique)),
{
    lemma_mismatch(marks, columns, 0);
}

proof fn lemma_mismatch(marks: Seq<MarkView>, columns: Seq<ColumnView>, i: int)
    requires
        0 <= i <= marks.len(),
    ensures
        match mismatch_from(marks, columns, i) {
            Some(j) => i <= j < marks.len() && marks[j].value.ty() != columns[j].ty,
            None => forall|j: int|
                i <= j < marks.len() ==> (#[trigger] marks[j]).value.ty() == columns[j].ty,
        },
    decreases marks.len() - i,
{
    if i < marks.len() {
        lemma_mismatch(marks, columns, i + 1);
    }
}

/// A position was taken under the ordering of its keys, where no field is in it twice.
pub proof fn law_a_position_records_its_ordering(marks: Seq<MarkView>)
    requires
        distinct(mark_keys(marks)),
    ensures
        recorded_sort(marks) == mark_keys(marks),
{
    lemma_inserted_each(mark_keys(marks));
}

proof fn lemma_inserted_each(keys: Seq<KeyView>)
    requires
        distinct(keys),
    ensures
        inserted_all(Seq::empty(), keys) == keys,
    decreases keys.len(),
{
    if keys.len() > 0 {
        let front = keys.drop_last();
        assert forall|i: int, j: int| 0 <= i < j < front.len() implies (#[trigger] front[i]).field
            != (#[trigger] front[j]).field by {
            assert(keys[i].field != keys[j].field);
        }
        lemma_inserted_each(front);
        assert(!sorts_by(front, keys.last().field)) by {
            assert forall|i: int| 0 <= i < front.len() implies (#[trigger] front[i]).field
                != keys.last().field by {
                assert(keys[i].field != keys[keys.len() - 1].field);
            }
        }
        assert(front.push(keys.last()) =~= keys);
    } else {
        assert(inserted_all(Seq::empty(), keys) =~= keys);
    }
}

/// A blank token is the start of a listing; any other is the position that its bytes write, under the
/// ordering of that position, and is refused where they write none.
pub proof fn law_a_token_is_the_position_it_writes(token: Seq<char>, marks: Seq<MarkView>)
    requires
        all_fit(marks),
    ensures
        trimmed(token).len() == 0 ==> (cursor_of(token) matches Ok(cursor) && cursor.marks.len() == 0
            && cursor.sort.len() == 0 && cursor.token.len() == 0),
        trimmed(token).len() > 0 && base64_url_read(token) is Err ==> cursor_of(token) is Err,
        trimmed(token).len() > 0 && base64_url_read(token) == Ok::<Seq<u8>, Seq<char>>(
            encoded(marks),
        ) ==> (cursor_of(token) matches Ok(cursor) && cursor.marks == marks && cursor.token == token
            && (distinct(mark_keys(marks)) ==> cursor.sort == mark_keys(marks))),
{
    law_bytes_read_back(marks);
    if distinct(mark_keys(marks)) {
        law_a_position_records_its_ordering(marks);
    }
}

/// A position at some values pages by the keys that it was taken under, and holds the values one for
/// one; the start of a listing pages by the ordering that was asked for.
pub proof fn law_a_position_pages_by_its_keys(
    keys: Seq<KeyView>,
    values: Seq<ValueView>,
    cursor: CursorView,
)
    requires
        keys.len() == values.len(),
    ensures
        mark_keys(marks_at(keys, values)) == keys,
        forall|i: int|
            0 <= i < values.len() ==> (#[trigger] marks_at(keys, values)[i]).value == values[i],
        cursor.marks.len() == 0 ==> paged_by(cursor) == cursor.sort,
        cursor.marks.len() > 0 ==> paged_by(cursor) == Seq::new(
            cursor.marks.len(),
            |i: int| cursor.marks[i].key,
        ),
        paged_by(at_start(keys)) == keys,
{
    assert(mark_keys(marks_at(keys, values)) =~= keys);
    assert(mark_keys(cursor.marks) =~= Seq::new(
        cursor.marks.len(),
        |i: int| cursor.marks[i].key,
    ));
}

} // verus!
