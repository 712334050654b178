[package]
name = "norisk_capture"
version = "0.1.0"
edition = "2021"
publish = false

[dependencies]
serde = { version = "1", features = ["derive"] }
serde_json = "1"
log = "0.4"
anyhow = "1"
ab_glyph = "0.2"
nnnoiseless = "0.5"
gif = "0.13"
ffmpeg-next = "7"
