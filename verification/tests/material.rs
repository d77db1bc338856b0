use audio_blocks::material::AudioMaterial;

fn bits(samples: &[f32]) -> Vec<u32> {
    samples.iter().map(|s| s.to_bits()).collect()
}

fn floats(bits: &[u32]) -> Vec<f32> {
    bits.iter().map(|b| f32::from_bits(*b)).collect()
}

#[test]
fn test_blocks_partition_and_padding() {
    let m = AudioMaterial::with_block_size(bits(&[1.0, 0.0, 0.0, 1.0, 0.0, 0.0, 0.0, 0.0]), 44100, 4);
    assert_eq!(m.blocks.len(), 2);
    assert_eq!(floats(&m.blocks[0]), vec![1.0, 0.0, 0.0, 1.0]);
    assert_eq!(floats(&m.blocks[1]), vec![0.0, 0.0, 0.0, 0.0]);
    assert_eq!(m.sample_rate, 44100);
    assert_eq!(m.block_size, 4);
}

#[test]
fn test_round_trip_except_padding() {
    let input = [0.5f32, -1.5, 2.25, 3.0, -0.125];
    let m = AudioMaterial::with_block_size(bits(&input), 8000, 4);
    assert_eq!(m.blocks.len(), 2);
    let out = floats(&m.samples());
    assert_eq!(out.len(), 8);
    assert_eq!(&out[..5], &input);
    assert_eq!(&out[5..], &[0.0, 0.0, 0.0]);
}

#[test]
fn test_round_trip_exact_multiple() {
    let input = [0.5f32, -1.5, 2.25, 3.0];
    let m = AudioMaterial::with_block_size(bits(&input), 8000, 4);
    assert_eq!(m.blocks.len(), 1);
    assert_eq!(floats(&m.samples()), input.to_vec());
}

#[test]
fn test_empty_signal_no_blocks() {
    let m = AudioMaterial::with_block_size(Vec::new(), 8000, 4);
    assert_eq!(m.blocks.len(), 0);
    assert_eq!(m.samples().len(), 0);
}

#[test]
fn test_new_uses_default_block_size() {
    let m = AudioMaterial::new(vec![0x3F80_0000u32; 65], 44100);
    assert_eq!(m.block_size, 64);
    assert_eq!(m.blocks.len(), 2);
    assert_eq!(m.blocks[0].len(), 64);
    assert_eq!(m.blocks[1].len(), 64);
    assert_eq!(m.blocks[1][0], 0x3F80_0000);
    assert_eq!(f32::from_bits(m.blocks[1][1]), 0.0);
}
