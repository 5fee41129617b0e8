//! Whole-numbered keys for single-precision numbers given by their bits.
//!
//! The layout asks no more of a time than its place among the other times.
//! A caller that holds its times as IEEE 754 single-precision numbers can
//! hand each of them over as the key of its bit pattern: the keys stand in
//! the order of the numbers.

use vstd::prelude::*;

verus! {

/// The bit that holds the sign.
pub const SIGN_BIT: u32 = 0x8000_0000;

/// The sign bit of the pattern is set.
pub open spec fn is_negative(bits: u32) -> bool {
    bits & 0x8000_0000 != 0
}

/// The pattern without its sign bit: exponent and fraction. Of two numbers
/// of the same sign, the one further from zero has the greater magnitude.
pub open spec fn magnitude(bits: u32) -> u32 {
    bits & 0x7fff_ffff
}

/// The pattern stands for no number: all exponent bits set, and a fraction
/// that is not zero.
pub open spec fn is_nan(bits: u32) -> bool {
    magnitude(bits) > 0x7f80_0000
}

/// The number that `bits` stands for is less than the one that `other`
/// stands for. The two zeros are equal; neither is less than the other.
pub open spec fn is_less(bits: u32, other: u32) -> bool {
    if is_negative(bits) {
        if is_negative(other) {
            magnitude(bits) > magnitude(other)
        } else {
            magnitude(bits) > 0 || magnitude(other) > 0
        }
    } else {
        !is_negative(other) && magnitude(bits) < magnitude(other)
    }
}

/// The key of a pattern: as far above the key of zero as the magnitude says
/// for a number with a clear sign bit, as far below it for one with the sign
/// bit set.
pub open spec fn key_of(bits: u32) -> u64 {
    if is_negative(bits) {
        (0x8000_0000 - magnitude(bits)) as u64
    } else {
        (0x8000_0000 + magnitude(bits)) as u64
    }
}

/// Keys stand in the order of the numbers: a lesser number has a lesser key,
/// and equal keys belong to the same magnitude and sign, or to the two zeros.
pub proof fn lemma_keys_order(bits: u32, other: u32)
    ensures
        key_of(bits) < key_of(other) <==> is_less(bits, other),
        key_of(bits) == key_of(other) <==> !is_less(bits, other) && !is_less(other, bits),
{
    assert(bits & 0x7fff_ffff <= 0x7fff_ffff) by (bit_vector);
    assert(other & 0x7fff_ffff <= 0x7fff_ffff) by (bit_vector);
}

/// Whether the pattern stands for no number.
pub fn is_nan_bits(bits: u32) -> (nan: bool)
    ensures
        nan == is_nan(bits),
{
    (bits & 0x7fff_ffff) > 0x7f80_0000
}

/// The key of a pattern.
pub fn order_key(bits: u32) -> (key: u64)
    ensures
        key == key_of(bits),
{
    let size: u32 = bits & 0x7fff_ffff;
    assert(bits & 0x7fff_ffff <= 0x7fff_ffff) by (bit_vector);
    if bits & SIGN_BIT != 0 {
        0x8000_0000u64 - size as u64
    } else {
        0x8000_0000u64 + size as u64
    }
}

} // verus!
