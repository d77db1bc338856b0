use vstd::prelude::*;
use rustc_apfloat::Float;

verus! {

/// Bit pattern of +0.0 in IEEE-754 binary32.
pub const F32_POS_ZERO: u32 = 0x0000_0000;

/// Bit pattern of 1.0 in IEEE-754 binary32.
pub const F32_ONE: u32 = 0x3F80_0000;

/// Bit pattern of 2.0 in IEEE-754 binary32.
pub const F32_TWO: u32 = 0x4000_0000;

/// Bit pattern of -2.0 in IEEE-754 binary32.
pub const F32_NEG_TWO: u32 = 0xC000_0000;

/// First bit pattern past the non-negative finite range: a bit pattern
/// below this bound encodes a finite number with a clear sign bit.
pub const F32_POS_FINITE_END: u32 = 0x7F80_0000;

pub uninterp spec fn add_bits(a: u32, b: u32) -> u32;

pub uninterp spec fn sub_bits(a: u32, b: u32) -> u32;

pub uninterp spec fn mul_bits(a: u32, b: u32) -> u32;

pub uninterp spec fn div_bits(a: u32, b: u32) -> u32;

/// Relies on rustc_apfloat's IEEE-754 binary32 addition (`Float::add_r`
/// on `ieee::Single`, rounding to nearest, ties to even): the sum is a
/// function of the operand bits alone, and adding +0.0 to a finite
/// non-negative number returns it unchanged.
#[verifier::external_body]
pub(crate) fn f32_add(a: u32, b: u32) -> (r: u32)
    ensures
        r == add_bits(a, b),
        b == F32_POS_ZERO && a < F32_POS_FINITE_END ==> r == a,
{
    let x = rustc_apfloat::ieee::Single::from_bits(a as u128);
    let y = rustc_apfloat::ieee::Single::from_bits(b as u128);
    x.add_r(y, rustc_apfloat::Round::NearestTiesToEven).value.to_bits() as u32
}

/// Relies on rustc_apfloat's IEEE-754 binary32 subtraction
/// (`Float::sub_r` on `ieee::Single`, rounding to nearest, ties to
/// even): the difference is a function of the operand bits alone;
/// subtracting +0.0 from a finite non-negative number returns it
/// unchanged, and subtracting a finite non-negative number from itself
/// gives +0.0.
#[verifier::external_body]
pub(crate) fn f32_sub(a: u32, b: u32) -> (r: u32)
    ensures
        r == sub_bits(a, b),
        b == F32_POS_ZERO && a < F32_POS_FINITE_END ==> r == a,
        a == b && a < F32_POS_FINITE_END ==> r == F32_POS_ZERO,
{
    let x = rustc_apfloat::ieee::Single::from_bits(a as u128);
    let y = rustc_apfloat::ieee::Single::from_bits(b as u128);
    x.sub_r(y, rustc_apfloat::Round::NearestTiesToEven).value.to_bits() as u32
}

/// Relies on rustc_apfloat's IEEE-754 binary32 multiplication
/// (`Float::mul_r` on `ieee::Single`, rounding to nearest, ties to
/// even): the product is a function of the operand bits alone;
/// multiplying a finite non-negative number by 1.0 returns it
/// unchanged, and by +0.0 gives +0.0.
#[verifier::external_body]
pub(crate) fn f32_mul(a: u32, b: u32) -> (r: u32)
    ensures
        r == mul_bits(a, b),
        a == F32_ONE && b < F32_POS_FINITE_END ==> r == b,
        a == F32_POS_ZERO && b < F32_POS_FINITE_END ==> r == F32_POS_ZERO,
{
    let x = rustc_apfloat::ieee::Single::from_bits(a as u128);
    let y = rustc_apfloat::ieee::Single::from_bits(b as u128);
    x.mul_r(y, rustc_apfloat::Round::NearestTiesToEven).value.to_bits() as u32
}

/// Relies on rustc_apfloat's IEEE-754 binary32 division (`Float::div_r`
/// on `ieee::Single`, rounding to nearest, ties to even): the quotient
/// is a function of the operand bits alone.
#[verifier::external_body]
pub(crate) fn f32_div(a: u32, b: u32) -> (r: u32)
    ensures
        r == div_bits(a, b),
{
    let x = rustc_apfloat::ieee::Single::from_bits(a as u128);
    let y = rustc_apfloat::ieee::Single::from_bits(b as u128);
    x.div_r(y, rustc_apfloat::Round::NearestTiesToEven).value.to_bits() as u32
}

} // verus!
