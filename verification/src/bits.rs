//! The numeric model: a sample value, statistic or p-value is the bit pattern
//! of an IEEE 754 binary64 number, held as a `u64`.
//!
//! `fkey` maps a bit pattern to an integer whose order is the numeric order of
//! the encoded values: magnitudes compare directly for non-negative values and
//! reversed for negative ones, and the two zeroes share the key 0. NaN
//! patterns (exponent all ones, fraction non-zero) are ordered by the same
//! rule, which keeps the order total; `is_nan_bits` is what the pipeline uses
//! to recognise and discard them.

use vstd::prelude::*;

verus! {

/// Sign bit of a binary64 pattern.
pub const SIGN_BIT: u64 = 0x8000_0000_0000_0000;

/// Exponent field of a binary64 pattern (all ones for infinities and NaNs).
pub const EXP_MASK: u64 = 0x7FF0_0000_0000_0000;

/// Magnitude: everything but the sign bit.
pub const MAG_MASK: u64 = 0x7FFF_FFFF_FFFF_FFFF;

/// Bit pattern of the number one.
pub const ONE_BITS: u64 = 0x3FF0_0000_0000_0000;

/// Bit pattern of the largest finite binary64 number.
pub const MAX_BITS: u64 = 0x7FEF_FFFF_FFFF_FFFF;

/// Order key of a bit pattern: its position in the numeric order of the
/// encoded values. Non-negative patterns keep their magnitude, negative
/// patterns get the negated magnitude, so both zeroes map to 0.
pub open spec fn fkey(b: u64) -> int {
    if b >= SIGN_BIT {
        -((b - SIGN_BIT) as int)
    } else {
        b as int
    }
}

/// The encoded value of `a` is at most that of `b`.
pub open spec fn le_bits(a: u64, b: u64) -> bool {
    fkey(a) <= fkey(b)
}

/// The encoded value of `a` is strictly below that of `b`.
pub open spec fn lt_bits(a: u64, b: u64) -> bool {
    fkey(a) < fkey(b)
}

/// The pattern encodes a NaN: exponent all ones and fraction non-zero,
/// i.e. a magnitude strictly above that of infinity.
pub open spec fn is_nan_bits(b: u64) -> bool {
    b & MAG_MASK > EXP_MASK
}

/// The smaller of two encoded values; the left one when they tie.
pub open spec fn min_bits(a: u64, b: u64) -> u64 {
    if fkey(a) <= fkey(b) {
        a
    } else {
        b
    }
}

/// Compares two bit patterns as the numbers they encode.
pub fn le_bits_exec(a: u64, b: u64) -> (r: bool)
    ensures
        r == le_bits(a, b),
{
    if a >= SIGN_BIT {
        if b >= SIGN_BIT {
            b <= a
        } else {
            true
        }
    } else {
        if b >= SIGN_BIT {
            a == 0 && b == SIGN_BIT
        } else {
            a <= b
        }
    }
}

/// Strict comparison of two bit patterns as the numbers they encode.
pub fn lt_bits_exec(a: u64, b: u64) -> (r: bool)
    ensures
        r == lt_bits(a, b),
{
    !le_bits_exec(b, a)
}

/// Tells a NaN pattern from every other pattern.
pub fn is_nan_bits_exec(b: u64) -> (r: bool)
    ensures
        r == is_nan_bits(b),
{
    (b & MAG_MASK) > EXP_MASK
}

/// Clears the sign bit: the bit pattern of the absolute value.
pub fn abs_bits(b: u64) -> (r: u64)
    ensures
        r == b & MAG_MASK,
        fkey(r) == if fkey(b) >= 0 { fkey(b) } else { -fkey(b) },
{
    proof {
        assert(b & MAG_MASK == if b >= SIGN_BIT { b ^ SIGN_BIT } else { b }) by (bit_vector);
        assert(b >= SIGN_BIT ==> (b ^ SIGN_BIT) + SIGN_BIT == b) by (bit_vector);
    }
    b & MAG_MASK
}

/// The smaller of two encoded values.
pub fn min_bits_exec(a: u64, b: u64) -> (r: u64)
    ensures
        r == min_bits(a, b),
{
    if le_bits_exec(a, b) {
        a
    } else {
        b
    }
}

} // verus!
