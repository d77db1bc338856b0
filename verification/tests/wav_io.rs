use audio_blocks::filters::naive_low_pass;
use audio_blocks::material::AudioMaterial;

fn load_wav(path: &str) -> AudioMaterial {
    let (samples, sample_rate): (wavers::Samples<f32>, i32) =
        wavers::read::<f32, _>(path).unwrap();
    let bits: Vec<u32> = samples.iter().map(|s| s.to_bits()).collect();
    AudioMaterial::new(bits, sample_rate)
}

fn write_wav(audio: &AudioMaterial, path: &str) {
    let samples: Vec<f32> = audio.samples().iter().map(|b| f32::from_bits(*b)).collect();
    wavers::write(path, &samples, audio.sample_rate, 1).unwrap();
}

#[test]
fn test_wav_round_trip_except_padding() {
    let input: Vec<f32> = (0..70).map(|i| ((i % 13) as f32 - 6.0) / 8.0).collect();
    wavers::write("/tmp/short_signal.wav", &input, 8000, 1).unwrap();
    let m = load_wav("/tmp/short_signal.wav");
    assert_eq!(m.sample_rate, 8000);
    assert_eq!(m.blocks.len(), 2);
    let out: Vec<f32> = m.samples().iter().map(|b| f32::from_bits(*b)).collect();
    assert_eq!(out.len(), 128);
    assert_eq!(&out[..70], &input[..]);
    assert!(out[70..].iter().all(|s| *s == 0.0));
}

#[test]
fn test_wav_filter_pipeline() {
    let input: Vec<f32> = (0..100).map(|i| ((i % 7) as f32) / 8.0).collect();
    wavers::write("/tmp/noise_in.wav", &input, 8000, 1).unwrap();
    let mut m = load_wav("/tmp/noise_in.wav");
    assert!(naive_low_pass(&mut m).is_ok());
    write_wav(&m, "/tmp/noise_filtered.wav");
    let filtered = load_wav("/tmp/noise_filtered.wav");
    let out: Vec<f32> = filtered.samples().iter().map(|b| f32::from_bits(*b)).collect();
    let mut expected: Vec<f32> = Vec::new();
    let mut last = 0.0f32;
    for x in &input {
        last = x + last;
        expected.push(last);
    }
    assert_eq!(&out[..100], &expected[..]);
}
