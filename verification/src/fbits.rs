//! IEEE-754 binary32 arithmetic on bit patterns.
//!
//! The library never holds a floating-point value: a pixel channel is the
//! 32-bit pattern of its binary32 encoding.  Arithmetic on channels goes
//! through a software implementation of the IEEE-754 operations (round to
//! nearest, ties to even — the rounding the hardware uses), and each
//! operation's result is named by an uninterpreted spec function, so that
//! contracts can say exactly which operations produced a value.

use vstd::prelude::*;
use rustc_apfloat::Float;

verus! {

/// Bit pattern of the binary32 sum of the values with bit patterns `a` and `b`.
pub uninterp spec fn f32_add(a: u32, b: u32) -> u32;

/// Bit pattern of the binary32 difference of the values `a` and `b`.
pub uninterp spec fn f32_sub(a: u32, b: u32) -> u32;

/// Bit pattern of the binary32 product of the values `a` and `b`.
pub uninterp spec fn f32_mul(a: u32, b: u32) -> u32;

/// Bit pattern of the binary32 quotient of the values `a` and `b`.
pub uninterp spec fn f32_div(a: u32, b: u32) -> u32;

/// Bit pattern of the binary32 value nearest to the integer `n`.
pub uninterp spec fn f32_of_uint(n: u64) -> u32;

/// Relies on rustc_apfloat's `Single::add_r`: IEEE-754 binary32 addition,
/// round to nearest even; the result depends on the operand bits alone.
#[verifier::external_body]
pub(crate) fn add_bits(a: u32, b: u32) -> (r: u32)
    ensures
        r == f32_add(a, b),
{
    let x = rustc_apfloat::ieee::Single::from_bits(a as u128);
    let y = rustc_apfloat::ieee::Single::from_bits(b as u128);
    x.add_r(y, rustc_apfloat::Round::NearestTiesToEven).value.to_bits() as u32
}

/// Relies on rustc_apfloat's `Single::sub_r`: IEEE-754 binary32 subtraction,
/// round to nearest even; the result depends on the operand bits alone.
#[verifier::external_body]
pub(crate) fn sub_bits(a: u32, b: u32) -> (r: u32)
    ensures
        r == f32_sub(a, b),
{
    let x = rustc_apfloat::ieee::Single::from_bits(a as u128);
    let y = rustc_apfloat::ieee::Single::from_bits(b as u128);
    x.sub_r(y, rustc_apfloat::Round::NearestTiesToEven).value.to_bits() as u32
}

/// Relies on rustc_apfloat's `Single::mul_r`: IEEE-754 binary32
/// multiplication, round to nearest even; the result depends on the
/// operand bits alone.
#[verifier::external_body]
pub(crate) fn mul_bits(a: u32, b: u32) -> (r: u32)
    ensures
        r == f32_mul(a, b),
{
    let x = rustc_apfloat::ieee::Single::from_bits(a as u128);
    let y = rustc_apfloat::ieee::Single::from_bits(b as u128);
    x.mul_r(y, rustc_apfloat::Round::NearestTiesToEven).value.to_bits() as u32
}

/// Relies on rustc_apfloat's `Single::div_r`: IEEE-754 binary32 division,
/// round to nearest even; the result depends on the operand bits alone.
#[verifier::external_body]
pub(crate) fn div_bits(a: u32, b: u32) -> (r: u32)
    ensures
        r == f32_div(a, b),
{
    let x = rustc_apfloat::ieee::Single::from_bits(a as u128);
    let y = rustc_apfloat::ieee::Single::from_bits(b as u128);
    x.div_r(y, rustc_apfloat::Round::NearestTiesToEven).value.to_bits() as u32
}

/// Relies on rustc_apfloat's `Single::from_u128_r`: conversion of an
/// unsigned integer to the nearest binary32 value; the result depends on
/// the argument alone.
#[verifier::external_body]
pub(crate) fn uint_bits(n: u64) -> (r: u32)
    ensures
        r == f32_of_uint(n),
{
    rustc_apfloat::ieee::Single::from_u128_r(n as u128, rustc_apfloat::Round::NearestTiesToEven)
        .value
        .to_bits() as u32
}

/// Bit pattern of the BT.709 red weight 0.2126.
pub const LUM_R_BITS: u32 = 0x3E59_B3D0;

/// Bit pattern of the BT.709 green weight 0.7152.
pub const LUM_G_BITS: u32 = 0x3F37_1759;

/// Bit pattern of the BT.709 blue weight 0.0722.
pub const LUM_B_BITS: u32 = 0x3D93_DD98;

/// BT.709 relative luminance of one RGB triple, as the chain of binary32
/// operations `0.2126 * r + 0.7152 * g + 0.0722 * b`, left associated.
pub open spec fn lum_bits(r: u32, g: u32, b: u32) -> u32 {
    f32_add(f32_add(f32_mul(LUM_R_BITS, r), f32_mul(LUM_G_BITS, g)), f32_mul(LUM_B_BITS, b))
}

/// Compute the BT.709 relative luminance of one RGB triple.
pub(crate) fn luminance(r: u32, g: u32, b: u32) -> (y: u32)
    ensures
        y == lum_bits(r, g, b),
{
    add_bits(add_bits(mul_bits(LUM_R_BITS, r), mul_bits(LUM_G_BITS, g)), mul_bits(LUM_B_BITS, b))
}

} // verus!
