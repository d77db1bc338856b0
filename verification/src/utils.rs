use vstd::prelude::*;
use crate::errors::FilterError;
use crate::filters::BiquadVars;
use crate::fp32::{add_bits, div_bits, mul_bits, sub_bits, f32_add, f32_div, f32_mul, f32_sub,
    F32_NEG_TWO, F32_ONE, F32_POS_ZERO, F32_TWO};

verus! {

/// `2^k` as a mathematical integer.
pub open spec fn pow2(k: nat) -> nat
    decreases k,
{
    if k == 0 {
        1nat
    } else {
        2 * pow2((k - 1) as nat)
    }
}

/// `n` is an exact power of two.
pub open spec fn is_power_of_two(n: nat) -> bool {
    exists|k: nat| n == pow2(k)
}

/// Largest power of two that is at most `n`; 0 when `n` is 0.
pub fn prev_power_of_two(n: u32) -> (r: u32)
    ensures
        n == 0 ==> r == 0,
        n > 0 ==> is_power_of_two(r as nat) && r <= n && n < 2 * r,
{
    if n == 0 {
        return 0;
    }
    let mut p: u32 = 1;
    proof {
        assert(1nat == pow2(0));
    }
    while p <= n / 2
        invariant
            1 <= p,
            p <= n,
            is_power_of_two(p as nat),
        decreases n - p,
    {
        proof {
            let k = choose|k: nat| p as nat == pow2(k);
            assert(2 * p as nat == pow2(k + 1));
        }
        p = p * 2;
    }
    p
}

/// A low-pass cutoff is valid for a sample rate when the rate is
/// positive and the cutoff lies strictly between zero and half the
/// sample rate (the Nyquist frequency).
pub open spec fn valid_low_pass_params(sample_rate: i32, cutoff_hz: u32) -> bool {
    sample_rate > 0 && cutoff_hz > 0 && 2 * (cutoff_hz as int) < sample_rate as int
}

/// Checks a sample rate and a cutoff frequency (in whole hertz) before
/// any trigonometric computation is attempted: a cutoff of zero or at
/// or above half the sample rate, or a non-positive sample rate, is
/// rejected with `InvalidParameter`.
pub fn validate_low_pass_params(sample_rate: i32, cutoff_hz: u32) -> (res: Result<
    (),
    FilterError,
>)
    ensures
        res is Ok <==> valid_low_pass_params(sample_rate, cutoff_hz),
        res is Err ==> res == Err::<(), FilterError>(FilterError::InvalidParameter),
{
    if sample_rate <= 0 {
        return Err(FilterError::InvalidParameter);
    }
    if cutoff_hz == 0 {
        return Err(FilterError::InvalidParameter);
    }
    if (cutoff_hz as u64) * 2 >= (sample_rate as u64) {
        return Err(FilterError::InvalidParameter);
    }
    Ok(())
}

/// The coefficient set of the RBJ-style low-pass biquad, computed in
/// IEEE-754 binary32 from `cos_omega` (the cosine of the angular
/// frequency) and `alpha` (the bandwidth term): all five coefficients
/// normalized by `a0 = 1 + alpha`, with the filter history zeroed.
pub open spec fn biquad_low_pass_params(cos_omega: u32, alpha: u32) -> BiquadVars {
    let a0 = add_bits(F32_ONE, alpha);
    let one_minus_cos = sub_bits(F32_ONE, cos_omega);
    BiquadVars {
        x_1: F32_POS_ZERO,
        x_2: F32_POS_ZERO,
        y_1: F32_POS_ZERO,
        y_2: F32_POS_ZERO,
        a1: div_bits(mul_bits(F32_NEG_TWO, cos_omega), a0),
        a2: div_bits(sub_bits(F32_ONE, alpha), a0),
        b0: div_bits(div_bits(one_minus_cos, F32_TWO), a0),
        b1: div_bits(one_minus_cos, a0),
        b2: div_bits(div_bits(one_minus_cos, F32_TWO), a0),
    }
}

/// Generates the direct-form-1 low-pass biquad coefficient set for a
/// sample rate and a cutoff frequency in whole hertz. The two
/// trigonometric ingredients of the derivation are taken as arguments,
/// as IEEE-754 binary32 bit patterns supplied by the caller:
/// `cos_omega`, the cosine of the angular frequency
/// `omega = 2*pi*cutoff/sample_rate`, and `alpha`, the bandwidth term
/// `sin(omega) * sinh(ln(2)/2 * Q * omega/sin(omega))` for the fixed
/// resonance constant Q. Callers should hold the parameters to
/// `validate_low_pass_params` before computing those ingredients; this
/// function repeats the check and rejects out-of-range parameters with
/// `InvalidParameter` without touching the trigonometric inputs.
pub fn biquad_low_pass_params_generator(
    sample_rate: i32,
    cutoff_hz: u32,
    cos_omega: u32,
    alpha: u32,
) -> (res: Result<BiquadVars, FilterError>)
    ensures
        res is Ok <==> valid_low_pass_params(sample_rate, cutoff_hz),
        valid_low_pass_params(sample_rate, cutoff_hz) ==> res == Ok::<BiquadVars, FilterError>(
            biquad_low_pass_params(cos_omega, alpha),
        ),
        res is Err ==> res == Err::<BiquadVars, FilterError>(FilterError::InvalidParameter),
{
    match validate_low_pass_params(sample_rate, cutoff_hz) {
        Err(e) => Err(e),
        Ok(()) => {
            let a0 = f32_add(F32_ONE, alpha);
            let one_minus_cos = f32_sub(F32_ONE, cos_omega);
            let half_one_minus_cos = f32_div(one_minus_cos, F32_TWO);
            Ok(
                BiquadVars {
                    x_1: F32_POS_ZERO,
                    x_2: F32_POS_ZERO,
                    y_1: F32_POS_ZERO,
                    y_2: F32_POS_ZERO,
                    a1: f32_div(f32_mul(F32_NEG_TWO, cos_omega), a0),
                    a2: f32_div(f32_sub(F32_ONE, alpha), a0),
                    b0: f32_div(half_one_minus_cos, a0),
                    b1: f32_div(one_minus_cos, a0),
                    b2: f32_div(half_one_minus_cos, a0),
                },
            )
        },
    }
}

} // verus!
