use audio_blocks::errors::FilterError;
use audio_blocks::filters::{biquad_filter, low_pass_comb_filter, naive_low_pass,
    single_pole_low_pass_filter, BiquadVars};
use audio_blocks::material::AudioMaterial;

fn bits(samples: &[f32]) -> Vec<u32> {
    samples.iter().map(|s| s.to_bits()).collect()
}

fn floats(bits: &[u32]) -> Vec<f32> {
    bits.iter().map(|b| f32::from_bits(*b)).collect()
}

fn flat_floats(m: &AudioMaterial) -> Vec<f32> {
    floats(&m.samples())
}

#[test]
fn test_integrator_end_to_end() {
    let mut m = AudioMaterial::with_block_size(bits(&[1.0, 0.0, 0.0, 1.0, 0.0, 0.0, 0.0, 0.0]), 44100, 4);
    assert_eq!(floats(&m.blocks[0]), vec![1.0, 0.0, 0.0, 1.0]);
    assert_eq!(floats(&m.blocks[1]), vec![0.0, 0.0, 0.0, 0.0]);
    assert!(naive_low_pass(&mut m).is_ok());
    assert_eq!(floats(&m.blocks[0]), vec![1.0, 1.0, 1.0, 2.0]);
    assert_eq!(floats(&m.blocks[1]), vec![2.0, 2.0, 2.0, 2.0]);
}

#[test]
fn test_integrator_all_zeros() {
    let mut m = AudioMaterial::with_block_size(vec![0u32; 12], 44100, 4);
    assert!(naive_low_pass(&mut m).is_ok());
    assert_eq!(flat_floats(&m), vec![0.0; 12]);
}

#[test]
fn test_integrator_empty_signal_rejected() {
    let mut m = AudioMaterial::with_block_size(Vec::new(), 44100, 4);
    assert_eq!(naive_low_pass(&mut m), Err(FilterError::InvalidInput));
    assert_eq!(m.blocks.len(), 0);
}

#[test]
fn test_integrator_matches_float_arithmetic() {
    let input = [0.5f32, 1.25, -3.5, 0.75, 100.0, -0.625];
    let mut m = AudioMaterial::with_block_size(bits(&input), 44100, 3);
    assert!(naive_low_pass(&mut m).is_ok());
    let mut expected: Vec<f32> = Vec::new();
    let mut last = 0.0f32;
    for x in input {
        last = x + last;
        expected.push(last);
    }
    assert_eq!(flat_floats(&m), expected);
}

#[test]
fn test_single_pole_alpha_one_identity() {
    let input = [1.0f32, 2.0, 3.0, 4.0, 5.0, 6.0];
    let mut m = AudioMaterial::with_block_size(bits(&input), 44100, 3);
    assert!(single_pole_low_pass_filter(&mut m, 1.0f32.to_bits()).is_ok());
    assert_eq!(flat_floats(&m), input.to_vec());
}

#[test]
fn test_single_pole_matches_float_arithmetic() {
    let input = [1.0f32, -2.5, 3.75, 0.5, -8.25, 2.0, 2.0, 2.0];
    let alpha = 0.25f32;
    let mut m = AudioMaterial::with_block_size(bits(&input), 44100, 4);
    assert!(single_pole_low_pass_filter(&mut m, alpha.to_bits()).is_ok());
    let mut expected: Vec<f32> = Vec::new();
    let mut last = input[0];
    for x in input {
        last = last + alpha * (x - last);
        expected.push(last);
    }
    assert_eq!(flat_floats(&m), expected);
}

#[test]
fn test_single_pole_empty_signal_rejected() {
    let mut m = AudioMaterial::with_block_size(Vec::new(), 44100, 4);
    assert_eq!(
        single_pole_low_pass_filter(&mut m, 0.5f32.to_bits()),
        Err(FilterError::InvalidInput)
    );
}

fn identity_vars() -> BiquadVars {
    BiquadVars {
        x_1: 0,
        x_2: 0,
        y_1: 0,
        y_2: 0,
        a1: 0,
        a2: 0,
        b0: 1.0f32.to_bits(),
        b1: 0,
        b2: 0,
    }
}

#[test]
fn test_biquad_identity_reproduces_input() {
    let input = [1.0f32, 0.5, 0.0, 7.25, 3.0, 0.125, 9.0, 2.5];
    let mut m = AudioMaterial::with_block_size(bits(&input), 44100, 4);
    let mut vars = identity_vars();
    assert!(biquad_filter(&mut m, &mut vars).is_ok());
    assert_eq!(flat_floats(&m), input.to_vec());
    assert_eq!(f32::from_bits(vars.x_1), 2.5);
    assert_eq!(f32::from_bits(vars.y_1), 2.5);
    assert_eq!(f32::from_bits(vars.x_2), 9.0);
    assert_eq!(f32::from_bits(vars.y_2), 9.0);
}

fn biquad_reference(input: &[f32], vars: &mut [f32; 9]) -> Vec<f32> {
    // vars: x_1, x_2, y_1, y_2, a1, a2, b0, b1, b2
    let mut out = Vec::new();
    for &x in input {
        let mut result = vars[6] * x;
        result += vars[7] * vars[0];
        result += vars[8] * vars[1];
        result -= vars[4] * vars[2];
        result -= vars[5] * vars[3];
        vars[1] = vars[0];
        vars[0] = x;
        vars[3] = vars[2];
        vars[2] = result;
        out.push(result);
    }
    out
}

#[test]
fn test_biquad_matches_float_arithmetic() {
    let input = [1.0f32, -0.5, 0.25, 2.0, -1.75, 0.375, 4.5, -2.25];
    let coeffs = [0.3f32, -0.2, 0.5, 0.1, 0.15];  // a1, a2, b0, b1, b2
    let mut vars = BiquadVars {
        x_1: 0,
        x_2: 0,
        y_1: 0,
        y_2: 0,
        a1: coeffs[0].to_bits(),
        a2: coeffs[1].to_bits(),
        b0: coeffs[2].to_bits(),
        b1: coeffs[3].to_bits(),
        b2: coeffs[4].to_bits(),
    };
    let mut m = AudioMaterial::with_block_size(bits(&input), 44100, 4);
    assert!(biquad_filter(&mut m, &mut vars).is_ok());
    let mut ref_vars = [0.0, 0.0, 0.0, 0.0, coeffs[0], coeffs[1], coeffs[2], coeffs[3], coeffs[4]];
    let expected = biquad_reference(&input, &mut ref_vars);
    assert_eq!(flat_floats(&m), expected);
    assert_eq!(f32::from_bits(vars.x_1), ref_vars[0]);
    assert_eq!(f32::from_bits(vars.x_2), ref_vars[1]);
    assert_eq!(f32::from_bits(vars.y_1), ref_vars[2]);
    assert_eq!(f32::from_bits(vars.y_2), ref_vars[3]);
}

#[test]
fn test_biquad_block_continuity() {
    // Two consecutive blocks with carried state must equal one block of
    // double length over the same samples.
    let input = [1.0f32, -0.5, 0.25, 2.0, -1.75, 0.375, 4.5, -2.25];
    let coeffs = [0.3f32, -0.2, 0.5, 0.1, 0.15];
    let make_vars = || BiquadVars {
        x_1: 0,
        x_2: 0,
        y_1: 0,
        y_2: 0,
        a1: coeffs[0].to_bits(),
        a2: coeffs[1].to_bits(),
        b0: coeffs[2].to_bits(),
        b1: coeffs[3].to_bits(),
        b2: coeffs[4].to_bits(),
    };
    let mut m_split = AudioMaterial::with_block_size(bits(&input), 44100, 4);
    let mut m_whole = AudioMaterial::with_block_size(bits(&input), 44100, 8);
    assert_eq!(m_split.blocks.len(), 2);
    assert_eq!(m_whole.blocks.len(), 1);
    let mut vars_split = make_vars();
    let mut vars_whole = make_vars();
    assert!(biquad_filter(&mut m_split, &mut vars_split).is_ok());
    assert!(biquad_filter(&mut m_whole, &mut vars_whole).is_ok());
    assert_eq!(m_split.samples(), m_whole.samples());
    assert_eq!(vars_split, vars_whole);
}

#[test]
fn test_biquad_empty_signal_rejected() {
    let mut m = AudioMaterial::with_block_size(Vec::new(), 44100, 4);
    let mut vars = identity_vars();
    assert_eq!(biquad_filter(&mut m, &mut vars), Err(FilterError::InvalidInput));
    assert_eq!(vars, identity_vars());
}

#[test]
fn test_comb_filter_taps() {
    let g1 = 0.5f32.powf(3.0);
    let g2 = 0.9f32.powf(5.0);
    let input = [1.0f32, 0.0, 0.0, 0.0, 0.0, 0.0, 0.0, 0.0, 0.0, 0.0, 0.0, 0.0];
    let mut m = AudioMaterial::with_block_size(bits(&input), 44100, 4);
    assert!(low_pass_comb_filter(&mut m, g1.to_bits(), g2.to_bits()).is_ok());
    let mut expected: Vec<f32> = Vec::new();
    for n in 0..input.len() {
        let fb = if n >= 3 { expected[n - 3] } else { 0.0 };
        let ff = if n >= 5 { input[n - 5] } else { 0.0 };
        expected.push(input[n] + g1 * fb + g2 * ff);
    }
    let out = flat_floats(&m);
    assert_eq!(out, expected);
    // Spot checks: the impulse comes through, then the feedback tap at
    // three samples with gain 0.125, then the feedforward tap at five
    // samples with gain 0.9^5.
    assert_eq!(out[0], 1.0);
    assert_eq!(out[3], 0.125);
    assert_eq!(out[5], 0.9f32.powf(5.0));
}

#[test]
fn test_comb_empty_signal_rejected() {
    let mut m = AudioMaterial::with_block_size(Vec::new(), 44100, 4);
    assert_eq!(
        low_pass_comb_filter(&mut m, 0.125f32.to_bits(), 0.5f32.to_bits()),
        Err(FilterError::InvalidInput)
    );
}
