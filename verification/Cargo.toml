[package]
name = "audio_blocks"
version = "0.1.0"
edition = "2021"
publish = false

[dependencies]
rustc_apfloat = "*"
wavers = "*"
spectrum-analyzer = "*"
audio-visualizer = "*"
