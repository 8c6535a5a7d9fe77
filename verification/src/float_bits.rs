//! Checks on single-precision floating-point numbers given by their
//! IEEE 754 bit patterns: sign (bit 31), biased exponent (bits 23 to 30)
//! and fraction (bits 0 to 22). Settings such as a temperature arrive here
//! in that form, so that the checks on them can be stated exactly.

use vstd::prelude::*;

verus! {

pub open spec fn f32_sign(bits: u32) -> nat {
    (bits / 0x8000_0000) as nat
}

pub open spec fn f32_exponent(bits: u32) -> nat {
    ((bits / 0x80_0000) % 0x100) as nat
}

pub open spec fn f32_fraction(bits: u32) -> nat {
    (bits % 0x80_0000) as nat
}

/// The pattern is a NaN: all exponent bits set and a nonzero fraction.
pub open spec fn f32_is_nan(bits: u32) -> bool {
    f32_exponent(bits) == 0xff && f32_fraction(bits) != 0
}

/// The pattern is neither infinite nor a NaN.
pub open spec fn f32_is_finite(bits: u32) -> bool {
    f32_exponent(bits) != 0xff
}

/// The number compares `<= 0.0`: zero of either sign or any negative
/// number; a NaN compares false.
pub open spec fn f32_le_zero(bits: u32) -> bool {
    !f32_is_nan(bits) && (f32_sign(bits) == 1 || bits % 0x8000_0000 == 0)
}

/// The number compares `> 1.0`. Positive numbers order as their bit
/// patterns, and `1.0` is `0x3f80_0000`; a NaN compares false.
pub open spec fn f32_gt_one(bits: u32) -> bool {
    !f32_is_nan(bits) && f32_sign(bits) == 0 && bits > 0x3f80_0000
}

pub fn is_finite_bits(bits: u32) -> (b: bool)
    ensures
        b == f32_is_finite(bits),
{
    (bits / 0x80_0000) % 0x100 != 0xff
}

pub fn is_nan_bits(bits: u32) -> (b: bool)
    ensures
        b == f32_is_nan(bits),
{
    (bits / 0x80_0000) % 0x100 == 0xff && bits % 0x80_0000 != 0
}

pub fn le_zero_bits(bits: u32) -> (b: bool)
    ensures
        b == f32_le_zero(bits),
{
    !is_nan_bits(bits) && (bits / 0x8000_0000 == 1 || bits % 0x8000_0000 == 0)
}

pub fn gt_one_bits(bits: u32) -> (b: bool)
    ensures
        b == f32_gt_one(bits),
{
    !is_nan_bits(bits) && bits / 0x8000_0000 == 0 && bits > 0x3f80_0000
}

} // verus!
