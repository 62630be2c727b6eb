//! The parts that a token is made of.

use vstd::prelude::*;
use vstd::slice::slice_subrange;

verus! {

/// The kinds of part.
#[derive(Debug, Clone, Copy, PartialEq, Eq, Structural)]
pub enum Kind {
    Number,
    Length,
    Int,
    Flag,
    Float,
    Text,
    Bytes,
}

/// One part of a token. A floating-point number is held as its bits.
#[derive(Debug, PartialEq, Eq)]
pub enum Part {
    Number(u32),
    Length(u64),
    Int(i64),
    Flag(bool),
    Float(u64),
    Text(String),
    Bytes(Vec<u8>),
}

/// One part, as contracts speak of it.
pub enum PartView {
    Number(u32),
    Length(u64),
    Int(i64),
    Flag(bool),
    Float(u64),
    Text(Seq<char>),
    Bytes(Seq<u8>),
}

impl View for Part {
    type V = PartView;

    open spec fn view(&self) -> PartView {
        match self {
            Part::Number(n) => PartView::Number(*n),
            Part::Length(n) => PartView::Length(*n),
            Part::Int(n) => PartView::Int(*n),
            Part::Flag(b) => PartView::Flag(*b),
            Part::Float(bits) => PartView::Float(*bits),
            Part::Text(text) => PartView::Text(text@),
            Part::Bytes(bytes) => PartView::Bytes(bytes@),
        }
    }
}

/// The kind of a part.
pub open spec fn kind_of(part: PartView) -> Kind {
    match part {
        PartView::Number(_) => Kind::Number,
        PartView::Length(_) => Kind::Length,
        PartView::Int(_) => Kind::Int,
        PartView::Flag(_) => Kind::Flag,
        PartView::Float(_) => Kind::Float,
        PartView::Text(_) => Kind::Text,
        PartView::Bytes(_) => Kind::Bytes,
    }
}

/// What `postcard::to_allocvec` writes for a part.
pub uninterp spec fn postcard_written(part: PartView) -> Seq<u8>;

/// What `postcard::take_from_bytes` reads as a part of some kind, with how many bytes it
/// leaves.
pub uninterp spec fn postcard_read(kind: Kind, bytes: Seq<u8>) -> Option<(PartView, nat)>;

/// What a reading gave.
pub open spec fn part_seen(r: Option<(Part, usize)>) -> Option<(PartView, nat)> {
    match r {
        Some((part, left)) => Some((part@, left as nat)),
        None => None,
    }
}

/// A reading that gave `part` and left `left` bytes.
pub open spec fn read_as(part: PartView, left: nat) -> Option<(PartView, nat)> {
    Some((part, left))
}

/// Writes a part: `postcard::to_allocvec` of a `u32`, a `u64`, an `i64`, a `bool`, the eight
/// bytes of a floating-point number from the lowest on, a `String` or a `Vec<u8>`. Writing
/// into a vector does not fail. Claimed of it: the bytes depend on the part alone, and there is
/// at least one.
#[verifier::external_body]
pub(crate) fn write_part(part: &Part) -> (r: Vec<u8>)
    ensures
        r@ == postcard_written(part@),
        r@.len() > 0,
{
    let written = match part {
        Part::Number(n) => postcard::to_allocvec(n),
        Part::Length(n) => postcard::to_allocvec(n),
        Part::Int(n) => postcard::to_allocvec(n),
        Part::Flag(b) => postcard::to_allocvec(b),
        Part::Float(bits) => postcard::to_allocvec(&bits.to_le_bytes()),
        Part::Text(text) => postcard::to_allocvec(text),
        Part::Bytes(bytes) => postcard::to_allocvec(bytes),
    };
    written.unwrap_or_default()
}

/// A part that is a single number or flag.
pub open spec fn is_scalar(kind: Kind) -> bool {
    kind == Kind::Number || kind == Kind::Length || kind == Kind::Int || kind == Kind::Flag
}

/// Reads a number or a flag off the front of some bytes: `postcard::take_from_bytes` of a
/// `u32`, a `u64`, an `i64` or a `bool`. Claimed of it: the result depends on the kind and the
/// bytes alone, the part is of that kind, no more bytes are left than there were, and a part
/// that was written is read back, with what follows it left.
#[verifier::external_body]
pub(crate) fn read_scalar(kind: Kind, bytes: &[u8]) -> (r: Option<(Part, usize)>)
    requires
        is_scalar(kind),
    ensures
        part_seen(r) == postcard_read(kind, bytes@),
        r matches Some((part, left)) ==> kind_of(part@) == kind && left <= bytes@.len(),
        forall|part: PartView, rest: Seq<u8>|
            kind_of(part) == kind && bytes@ == #[trigger] (postcard_written(part) + rest)
                ==> part_seen(r) == read_as(part, rest.len()),
{
    let taken = match kind {
        Kind::Number => postcard::take_from_bytes(bytes).map(|(n, s)| (Part::Number(n), s)),
        Kind::Length => postcard::take_from_bytes(bytes).map(|(n, s)| (Part::Length(n), s)),
        Kind::Int => postcard::take_from_bytes(bytes).map(|(n, s)| (Part::Int(n), s)),
        _ => postcard::take_from_bytes(bytes).map(|(b, s)| (Part::Flag(b), s)),
    };
    taken.ok().map(|(part, rest)| (part, rest.len()))
}

/// Reads a floating-point number, a text or some bytes off the front of some bytes:
/// `postcard::take_from_bytes` of eight bytes from the lowest on, of a `String` or of a
/// `Vec<u8>`. Claimed of it: what is claimed of it for a number.
#[verifier::external_body]
pub(crate) fn read_run(kind: Kind, bytes: &[u8]) -> (r: Option<(Part, usize)>)
    requires
        !is_scalar(kind),
    ensures
        part_seen(r) == postcard_read(kind, bytes@),
        r matches Some((part, left)) ==> kind_of(part@) == kind && left <= bytes@.len(),
        forall|part: PartView, rest: Seq<u8>|
            kind_of(part) == kind && bytes@ == #[trigger] (postcard_written(part) + rest)
                ==> part_seen(r) == read_as(part, rest.len()),
{
    let taken = match kind {
        Kind::Float => postcard::take_from_bytes(bytes)
            .map(|(b, s)| (Part::Float(u64::from_le_bytes(b)), s)),
        Kind::Text => postcard::take_from_bytes(bytes).map(|(t, s)| (Part::Text(t), s)),
        _ => postcard::take_from_bytes(bytes).map(|(b, s)| (Part::Bytes(b), s)),
    };
    taken.ok().map(|(part, rest)| (part, rest.len()))
}

/// The part at the front of some bytes, and what follows it.
pub open spec fn taken(kind: Kind, bytes: Seq<u8>) -> Option<(PartView, Seq<u8>)> {
    match postcard_read(kind, bytes) {
        Some((part, left)) => Some((part, bytes.subrange(bytes.len() - left, bytes.len() as int))),
        None => None,
    }
}

/// A part of this kind at the front of these bytes is read as it was written.
pub open spec fn faithful(kind: Kind, bytes: Seq<u8>) -> bool {
    forall|part: PartView, rest: Seq<u8>|
        kind_of(part) == kind && bytes == #[trigger] (postcard_written(part) + rest) ==> taken(
            kind,
            bytes,
        ) == Some((part, rest))
}

/// Reads the part at the front of some bytes.
pub fn take<'a>(kind: Kind, bytes: &'a [u8]) -> (r: Option<(Part, &'a [u8])>)
    ensures
        match (r, taken(kind, bytes@)) {
            (Some((part, rest)), Some((found, left))) => part@ == found && rest@ == left && kind_of(
                found,
            ) == kind,
            (None, None) => true,
            _ => false,
        },
        faithful(kind, bytes@),
{
    let read = match kind {
        Kind::Number | Kind::Length | Kind::Int | Kind::Flag => read_scalar(kind, bytes),
        Kind::Float | Kind::Text | Kind::Bytes => read_run(kind, bytes),
    };
    proof {
        assert forall|part: PartView, rest: Seq<u8>|
            kind_of(part) == kind && bytes@ == #[trigger] (postcard_written(part)
                + rest) implies taken(kind, bytes@) == Some((part, rest)) by {
            assert(bytes@.subrange(bytes@.len() - rest.len(), bytes@.len() as int) =~= rest);
        }
    }
    match read {
        Some((part, left)) => {
            let rest = slice_subrange(bytes, bytes.len() - left, bytes.len());
            Some((part, rest))
        },
        None => None,
    }
}

} // verus!
