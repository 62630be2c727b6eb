//! The checksum of a token.

use vstd::prelude::*;

verus! {

/// The reversed polynomial of the IEEE CRC-32.
pub const POLYNOMIAL: u32 = 0xEDB8_8320;

/// The remainder after one more bit.
pub open spec fn after_bit(crc: u32) -> u32 {
    if crc & 1 == 1 {
        (crc >> 1) ^ POLYNOMIAL
    } else {
        crc >> 1
    }
}

/// The remainder after `n` more bits.
pub open spec fn after_bits(crc: u32, n: nat) -> u32
    decreases n,
{
    if n == 0 {
        crc
    } else {
        after_bit(after_bits(crc, (n - 1) as nat))
    }
}

/// The remainder after the first `n` bytes.
pub open spec fn after_bytes(bytes: Seq<u8>, n: nat) -> u32
    decreases n,
{
    if n == 0 {
        0xFFFF_FFFFu32
    } else {
        after_bits(after_bytes(bytes, (n - 1) as nat) ^ (bytes[n - 1] as u32), 8)
    }
}

/// The IEEE CRC-32 of some bytes.
pub open spec fn crc32_of(bytes: Seq<u8>) -> u32 {
    !after_bytes(bytes, bytes.len())
}

/// The IEEE CRC-32 of some bytes, one bit at a time.
pub fn crc32(bytes: &[u8]) -> (r: u32)
    ensures
        r == crc32_of(bytes@),
{
    let mut crc: u32 = 0xFFFF_FFFF;
    let mut i: usize = 0;
    while i < bytes.len()
        invariant
            i <= bytes.len(),
            crc == after_bytes(bytes@, i as nat),
        decreases bytes.len() - i,
    {
        let ghost before = crc ^ (bytes@[i as int] as u32);
        crc = crc ^ (bytes[i] as u32);
        let mut bit: usize = 0;
        while bit < 8
            invariant
                bit <= 8,
                crc == after_bits(before, bit as nat),
            decreases 8 - bit,
        {
            crc = if crc & 1 == 1 {
                (crc >> 1) ^ POLYNOMIAL
            } else {
                crc >> 1
            };
            bit += 1;
        }
        i += 1;
    }
    !crc
}

/// A checksum can be taken up where it was left: one more byte is folded into it and divided out bit
/// by bit, each time by two, and by the polynomial where the bit is set. Nothing at all has the
/// checksum zero.
pub proof fn law_a_checksum_goes_on_byte_by_byte(bytes: Seq<u8>, byte: u8, crc: u32)
    ensures
        crc32_of(Seq::empty()) == 0,
        crc32_of(bytes.push(byte)) == !after_bits(!crc32_of(bytes) ^ (byte as u32), 8),
        crc % 2 == 0 ==> after_bits(crc, 1) == crc / 2,
        crc % 2 == 1 ==> after_bits(crc, 1) == (crc / 2) ^ 0xEDB8_8320u32,
{
    let more = bytes.push(byte);
    lemma_same_front(bytes, byte, bytes.len());
    let sum = after_bytes(bytes, bytes.len());
    assert(!(!sum) == sum) by (bit_vector);
    assert(!0xFFFF_FFFFu32 == 0) by (bit_vector);
    assert(after_bits(crc, 0) == crc);
    assert((crc & 1 == 1) == (crc % 2 == 1) && crc >> 1 == crc / 2) by (bit_vector);
    assert(after_bits(crc, 1) == after_bit(after_bits(crc, 0)));
}

proof fn lemma_same_front(bytes: Seq<u8>, byte: u8, n: nat)
    requires
        n <= bytes.len(),
    ensures
        after_bytes(bytes.push(byte), n) == after_bytes(bytes, n),
    decreases n,
{
    if n > 0 {
        lemma_same_front(bytes, byte, (n - 1) as nat);
    }
}

} // verus!
