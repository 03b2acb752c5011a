//! Numbers as the table holds them: IEEE-754 binary64 values carried by
//! their bit patterns, one sign bit, eleven exponent bits and fifty-two
//! fraction bits. Nothing here computes with them; the functions only tell
//! the kinds of value apart.

use vstd::prelude::*;

verus! {

/// The exponent bits.
pub const EXPONENT_MASK: u64 = 0x7ff0_0000_0000_0000;

/// The fraction bits.
pub const FRACTION_MASK: u64 = 0x000f_ffff_ffff_ffff;

/// The sign bit.
pub const SIGN_MASK: u64 = 0x8000_0000_0000_0000;

/// The bits of positive zero.
pub const ZERO: u64 = 0;

/// The bits of one.
pub const ONE: u64 = 0x3ff0_0000_0000_0000;

/// The bits of positive infinity.
pub const INFINITY: u64 = 0x7ff0_0000_0000_0000;

/// The bits of negative infinity.
pub const NEGATIVE_INFINITY: u64 = 0xfff0_0000_0000_0000;

/// The bits of the quiet NaN that stands for a score that does not exist.
pub const NAN: u64 = 0x7ff8_0000_0000_0000;

/// A value is finite exactly when its exponent bits are not all ones.
pub open spec fn is_finite(bits: u64) -> bool {
    bits & EXPONENT_MASK != EXPONENT_MASK
}

/// A value is a NaN exactly when its exponent bits are all ones and its
/// fraction is not zero.
pub open spec fn is_nan(bits: u64) -> bool {
    bits & EXPONENT_MASK == EXPONENT_MASK && bits & FRACTION_MASK != 0
}

/// A value is greater than zero exactly when its sign bit is clear and it is
/// neither zero nor a NaN: the patterns above zero's, up to that of positive
/// infinity.
pub open spec fn is_positive(bits: u64) -> bool {
    ZERO < bits <= INFINITY
}

/// A value is below zero exactly when its sign bit is set and it is neither
/// negative zero nor a NaN: the patterns above that of negative zero, up to
/// that of negative infinity.
pub open spec fn is_negative(bits: u64) -> bool {
    SIGN_MASK < bits <= NEGATIVE_INFINITY
}

/// `bits` where that is greater than zero, and one otherwise.
pub open spec fn positive_or_one(bits: u64) -> u64 {
    if is_positive(bits) {
        bits
    } else {
        ONE
    }
}

/// The value without its sign.
pub open spec fn magnitude(bits: u64) -> u64 {
    bits & !SIGN_MASK
}

/// A value is of one kind only: a positive value is no NaN, a NaN is not
/// finite, and the constants are what their names say.
pub proof fn lemma_kinds(bits: u64)
    ensures
        is_positive(bits) ==> !is_nan(bits),
        is_nan(bits) ==> !is_finite(bits),
        is_positive(bits) && bits != INFINITY ==> is_finite(bits),
        is_finite(ZERO) && !is_positive(ZERO),
        is_finite(ONE) && is_positive(ONE),
        !is_finite(INFINITY) && !is_nan(INFINITY) && is_positive(INFINITY),
        is_nan(NAN),
        is_positive(positive_or_one(bits)),
{
    assert(0 < bits <= 0x7ff0_0000_0000_0000u64 ==> !(bits & 0x7ff0_0000_0000_0000u64
        == 0x7ff0_0000_0000_0000u64 && bits & 0x000f_ffff_ffff_ffffu64 != 0)) by (bit_vector);
    assert(0 < bits < 0x7ff0_0000_0000_0000u64 ==> bits & 0x7ff0_0000_0000_0000u64
        != 0x7ff0_0000_0000_0000u64) by (bit_vector);
    assert(0u64 & 0x7ff0_0000_0000_0000u64 != 0x7ff0_0000_0000_0000u64) by (bit_vector);
    assert(0x3ff0_0000_0000_0000u64 & 0x7ff0_0000_0000_0000u64 != 0x7ff0_0000_0000_0000u64)
        by (bit_vector);
    assert(0x7ff0_0000_0000_0000u64 & 0x7ff0_0000_0000_0000u64 == 0x7ff0_0000_0000_0000u64)
        by (bit_vector);
    assert(0x7ff0_0000_0000_0000u64 & 0x000f_ffff_ffff_ffffu64 == 0) by (bit_vector);
    assert(0x7ff8_0000_0000_0000u64 & 0x7ff0_0000_0000_0000u64 == 0x7ff0_0000_0000_0000u64)
        by (bit_vector);
    assert(0x7ff8_0000_0000_0000u64 & 0x000f_ffff_ffff_ffffu64 != 0) by (bit_vector);
}

/// Tells whether `bits` is a finite number, neither a NaN nor an infinity.
pub fn bits_are_finite(bits: u64) -> (finite: bool)
    ensures
        finite == is_finite(bits),
{
    bits & EXPONENT_MASK != EXPONENT_MASK
}

/// Tells whether `bits` is a NaN.
pub fn bits_are_nan(bits: u64) -> (nan: bool)
    ensures
        nan == is_nan(bits),
{
    bits & EXPONENT_MASK == EXPONENT_MASK && bits & FRACTION_MASK != 0
}

/// Tells whether `bits` is below zero.
pub fn bits_are_negative(bits: u64) -> (negative: bool)
    ensures
        negative == is_negative(bits),
{
    SIGN_MASK < bits && bits <= NEGATIVE_INFINITY
}

/// Tells whether `bits` is greater than zero.
pub fn bits_are_positive(bits: u64) -> (positive: bool)
    ensures
        positive == is_positive(bits),
{
    ZERO < bits && bits <= INFINITY
}

/// The absolute value of `bits`: the same pattern with the sign bit clear.
pub fn absolute(bits: u64) -> (out: u64)
    ensures
        out == magnitude(bits),
{
    bits & !SIGN_MASK
}

/// A deviation to divide by: `bits` where that is greater than zero, and one
/// where it is zero, negative or a NaN.
pub fn deviation_or_one(bits: u64) -> (out: u64)
    ensures
        out == positive_or_one(bits),
        is_positive(out),
{
    if bits_are_positive(bits) {
        bits
    } else {
        ONE
    }
}

} // verus!
