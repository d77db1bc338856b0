use audio_blocks::errors::FilterError;
use audio_blocks::utils::{biquad_low_pass_params_generator, prev_power_of_two,
    validate_low_pass_params};

#[test]
fn test_validate_rejects_cutoff_at_nyquist() {
    assert_eq!(
        validate_low_pass_params(44100, 22050),
        Err(FilterError::InvalidParameter)
    );
    assert_eq!(
        validate_low_pass_params(44100, 30000),
        Err(FilterError::InvalidParameter)
    );
}

#[test]
fn test_validate_rejects_zero_cutoff_and_bad_rate() {
    assert_eq!(validate_low_pass_params(44100, 0), Err(FilterError::InvalidParameter));
    assert_eq!(validate_low_pass_params(0, 500), Err(FilterError::InvalidParameter));
    assert_eq!(validate_low_pass_params(-8000, 500), Err(FilterError::InvalidParameter));
}

#[test]
fn test_validate_accepts_in_range_cutoff() {
    assert_eq!(validate_low_pass_params(44100, 500), Ok(()));
    assert_eq!(validate_low_pass_params(44100, 22049), Ok(()));
    assert_eq!(validate_low_pass_params(44100, 1), Ok(()));
}

#[test]
fn test_generator_rejects_out_of_range_cutoff() {
    let cos_omega = 1.0f32.to_bits();
    let alpha = 0.5f32.to_bits();
    assert_eq!(
        biquad_low_pass_params_generator(44100, 22050, cos_omega, alpha),
        Err(FilterError::InvalidParameter)
    );
    assert_eq!(
        biquad_low_pass_params_generator(44100, 0, cos_omega, alpha),
        Err(FilterError::InvalidParameter)
    );
}

#[test]
fn test_generator_normalizes_coefficients() {
    let fs = 44100i32;
    let fc = 500u32;
    let q = 3.0f32;
    let omega = (2.0 * std::f32::consts::PI * fc as f32) / fs as f32;
    let cos_omega = omega.cos();
    let alpha = omega.sin() * f32::sinh(std::f32::consts::LN_2 / 2.0 * q * omega / omega.sin());
    let vars = biquad_low_pass_params_generator(fs, fc, cos_omega.to_bits(), alpha.to_bits())
        .unwrap();
    let a0 = 1.0 + alpha;
    assert_eq!(f32::from_bits(vars.a1), (-2.0 * cos_omega) / a0);
    assert_eq!(f32::from_bits(vars.a2), (1.0 - alpha) / a0);
    assert_eq!(f32::from_bits(vars.b0), ((1.0 - cos_omega) / 2.0) / a0);
    assert_eq!(f32::from_bits(vars.b1), (1.0 - cos_omega) / a0);
    assert_eq!(f32::from_bits(vars.b2), ((1.0 - cos_omega) / 2.0) / a0);
    assert_eq!(vars.x_1, 0);
    assert_eq!(vars.x_2, 0);
    assert_eq!(vars.y_1, 0);
    assert_eq!(vars.y_2, 0);
}

#[test]
fn test_prev_power_of_two_values() {
    assert_eq!(prev_power_of_two(0), 0);
    assert_eq!(prev_power_of_two(1), 1);
    assert_eq!(prev_power_of_two(2), 2);
    assert_eq!(prev_power_of_two(3), 2);
    assert_eq!(prev_power_of_two(5), 4);
    assert_eq!(prev_power_of_two(64), 64);
    assert_eq!(prev_power_of_two(65), 64);
    assert_eq!(prev_power_of_two(16384), 16384);
    assert_eq!(prev_power_of_two(u32::MAX), 1 << 31);
}
