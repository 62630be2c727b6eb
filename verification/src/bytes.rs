//! Numbers as bytes, and bytes as text.

use vstd::prelude::*;
#[allow(unused_imports)]
use vstd::utf8::{decode_utf8, valid_utf8};

verus! {

/// `x` as four bytes, the most significant first.
pub open spec fn be32(x: u32) -> Seq<u8> {
    seq![(x >> 24) as u8, (x >> 16) as u8, (x >> 8) as u8, x as u8]
}

/// The number that four bytes write, the most significant first.
pub open spec fn of_be32(b: Seq<u8>) -> u32 {
    ((b[0] as u32) << 24) | ((b[1] as u32) << 16) | ((b[2] as u32) << 8) | (b[3] as u32)
}

/// `x` as eight bytes, the most significant first.
pub open spec fn be64(x: u64) -> Seq<u8> {
    seq![
        (x >> 56) as u8,
        (x >> 48) as u8,
        (x >> 40) as u8,
        (x >> 32) as u8,
        (x >> 24) as u8,
        (x >> 16) as u8,
        (x >> 8) as u8,
        x as u8,
    ]
}

/// The number that eight bytes write, the most significant first.
pub open spec fn of_be64(b: Seq<u8>) -> u64 {
    ((b[0] as u64) << 56) | ((b[1] as u64) << 48) | ((b[2] as u64) << 40) | ((b[3] as u64) << 32)
        | ((b[4] as u64) << 24) | ((b[5] as u64) << 16) | ((b[6] as u64) << 8) | (b[7] as u64)
}

/// Four bytes are read as they were written.
pub proof fn lemma_be32(x: u32)
    ensures
        of_be32(be32(x)) == x,
{
    let b0 = (x >> 24) as u8;
    let b1 = (x >> 16) as u8;
    let b2 = (x >> 8) as u8;
    let b3 = x as u8;
    assert(((b0 as u32) << 24) | ((b1 as u32) << 16) | ((b2 as u32) << 8) | (b3 as u32) == x)
        by (bit_vector)
        requires
            b0 == (x >> 24) as u8,
            b1 == (x >> 16) as u8,
            b2 == (x >> 8) as u8,
            b3 == x as u8,
    ;
}

/// Eight bytes are read as they were written.
pub proof fn lemma_be64(x: u64)
    ensures
        of_be64(be64(x)) == x,
{
    let b0 = (x >> 56) as u8;
    let b1 = (x >> 48) as u8;
    let b2 = (x >> 40) as u8;
    let b3 = (x >> 32) as u8;
    let b4 = (x >> 24) as u8;
    let b5 = (x >> 16) as u8;
    let b6 = (x >> 8) as u8;
    let b7 = x as u8;
    assert(((b0 as u64) << 56) | ((b1 as u64) << 48) | ((b2 as u64) << 40) | ((b3 as u64) << 32) | ((
    b4 as u64) << 24) | ((b5 as u64) << 16) | ((b6 as u64) << 8) | (b7 as u64) == x) by (bit_vector)
        requires
            b0 == (x >> 56) as u8,
            b1 == (x >> 48) as u8,
            b2 == (x >> 40) as u8,
            b3 == (x >> 32) as u8,
            b4 == (x >> 24) as u8,
            b5 == (x >> 16) as u8,
            b6 == (x >> 8) as u8,
            b7 == x as u8,
    ;
}

/// A signed number survives the way through its bits.
pub proof fn lemma_signed(n: i64)
    ensures
        (n as u64) as i64 == n,
{
    assert((n as u64) as i64 == n) by (bit_vector);
}

/// Appends `more`.
pub fn extend(out: &mut Vec<u8>, more: &[u8])
    ensures
        final(out)@ == old(out)@ + more@,
{
    let mut i: usize = 0;
    let ghost start = out@;
    assert(start + more@.take(0) =~= start);
    while i < more.len()
        invariant
            i <= more.len(),
            out@ == start + more@.take(i as int),
        decreases more.len() - i,
    {
        out.push(more[i]);
        i += 1;
        assert(start + more@.take(i as int) =~= (start + more@.take(i - 1)).push(more@[i - 1]));
    }
    assert(more@.take(i as int) =~= more@);
}

/// Appends `x` as four bytes.
pub fn write_be32(out: &mut Vec<u8>, x: u32)
    ensures
        final(out)@ == old(out)@ + be32(x),
{
    let ghost start = out@;
    out.push((x >> 24) as u8);
    out.push((x >> 16) as u8);
    out.push((x >> 8) as u8);
    out.push(x as u8);
    assert(out@ =~= start + be32(x));
}

/// Appends `x` as eight bytes.
pub fn write_be64(out: &mut Vec<u8>, x: u64)
    ensures
        final(out)@ == old(out)@ + be64(x),
{
    let ghost start = out@;
    out.push((x >> 56) as u8);
    out.push((x >> 48) as u8);
    out.push((x >> 40) as u8);
    out.push((x >> 32) as u8);
    out.push((x >> 24) as u8);
    out.push((x >> 16) as u8);
    out.push((x >> 8) as u8);
    out.push(x as u8);
    assert(out@ =~= start + be64(x));
}

/// Reads four bytes as a number.
pub fn read_be32(b: &[u8]) -> (r: u32)
    requires
        b@.len() == 4,
    ensures
        r == of_be32(b@),
{
    ((b[0] as u32) << 24) | ((b[1] as u32) << 16) | ((b[2] as u32) << 8) | (b[3] as u32)
}

/// Reads eight bytes as a number.
pub fn read_be64(b: &[u8]) -> (r: u64)
    requires
        b@.len() == 8,
    ensures
        r == of_be64(b@),
{
    ((b[0] as u64) << 56) | ((b[1] as u64) << 48) | ((b[2] as u64) << 40) | ((b[3] as u64) << 32)
        | ((b[4] as u64) << 24) | ((b[5] as u64) << 16) | ((b[6] as u64) << 8) | (b[7] as u64)
}

/// A copy of some bytes.
pub fn copy_bytes(b: &[u8]) -> (r: Vec<u8>)
    ensures
        r@ == b@,
{
    let mut r: Vec<u8> = Vec::new();
    extend(&mut r, b);
    assert(r@ =~= b@);
    r
}

/// Reads bytes as text: `String::from_utf8` gives the text that the bytes encode where they
/// are UTF-8, and refuses them where they are not.
#[verifier::external_body]
pub(crate) fn text_of(bytes: Vec<u8>) -> (r: Option<String>)
    ensures
        r is Some <==> valid_utf8(bytes@),
        r matches Some(text) ==> text@ == decode_utf8(bytes@),
{
    String::from_utf8(bytes).ok()
}

// ---------------------------------------------------------------------------
// Laws
// ---------------------------------------------------------------------------


/// Numbers are written with the most significant byte first: each byte counts two hundred and
/// fifty-six times as much as the one behind it.
pub proof fn law_the_most_significant_byte_comes_first(x: u32, y: u64)
    ensures
        be32(x).len() == 4,
        be64(y).len() == 8,
        be32(x)[0] == x / 0x1000000,
        be32(x)[1] == x / 0x10000 % 256,
        be32(x)[2] == x / 0x100 % 256,
        be32(x)[3] == x % 256,
        be64(y)[0] == y / 0x100000000000000,
        be64(y)[1] == y / 0x1000000000000 % 256,
        be64(y)[2] == y / 0x10000000000 % 256,
        be64(y)[3] == y / 0x100000000 % 256,
        be64(y)[4] == y / 0x1000000 % 256,
        be64(y)[5] == y / 0x10000 % 256,
        be64(y)[6] == y / 0x100 % 256,
        be64(y)[7] == y % 256,
{
    assert((x >> 24) as u8 == x / 0x1000000 && (x >> 16) as u8 == x / 0x10000 % 256 && (x >> 8)
        as u8 == x / 0x100 % 256 && x as u8 == x % 256) by (bit_vector);
    assert((y >> 56) as u8 == y / 0x100000000000000 && (y >> 48) as u8 == y / 0x1000000000000 % 256
        && (y >> 40) as u8 == y / 0x10000000000 % 256 && (y >> 32) as u8 == y / 0x100000000 % 256
        && (y >> 24) as u8 == y / 0x1000000 % 256 && (y >> 16) as u8 == y / 0x10000 % 256 && (y
        >> 8) as u8 == y / 0x100 % 256 && y as u8 == y % 256) by (bit_vector);
}

/// Bytes that were read as a number are written back as they were.
pub proof fn law_a_number_keeps_its_bytes(b: Seq<u8>, c: Seq<u8>)
    requires
        b.len() == 4,
        c.len() == 8,
    ensures
        be32(of_be32(b)) == b,
        be64(of_be64(c)) == c,
{
    let b0 = b[0];
    let b1 = b[1];
    let b2 = b[2];
    let b3 = b[3];
    let x = of_be32(b);
    assert((x >> 24) as u8 == b0 && (x >> 16) as u8 == b1 && (x >> 8) as u8 == b2 && x as u8 == b3)
        by (bit_vector)
        requires
            x == ((b0 as u32) << 24) | ((b1 as u32) << 16) | ((b2 as u32) << 8) | (b3 as u32),
    ;
    let c0 = c[0];
    let c1 = c[1];
    let c2 = c[2];
    let c3 = c[3];
    let c4 = c[4];
    let c5 = c[5];
    let c6 = c[6];
    let c7 = c[7];
    let y = of_be64(c);
    assert((y >> 56) as u8 == c0 && (y >> 48) as u8 == c1 && (y >> 40) as u8 == c2 && (y >> 32) as u8
        == c3 && (y >> 24) as u8 == c4 && (y >> 16) as u8 == c5 && (y >> 8) as u8 == c6 && y as u8
        == c7) by (bit_vector)
        requires
            y == ((c0 as u64) << 56) | ((c1 as u64) << 48) | ((c2 as u64) << 40) | ((c3 as u64)
                << 32) | ((c4 as u64) << 24) | ((c5 as u64) << 16) | ((c6 as u64) << 8) | (
            c7 as u64),
    ;
    assert(be32(x) =~= b);
    assert(be64(y) =~= c);
}

} // verus!
