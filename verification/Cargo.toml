[package]
name = "spektra"
version = "0.1.0"
edition = "2021"
publish = false

[dependencies]
image = { version = "*", default-features = false, features = ["png"] }
ab_glyph = "*"
epaint_default_fonts = "*"
rustfft = "*"
ffmpeg-next = { version = "*", default-features = false, features = ["codec", "format", "software-resampling"] }
eframe = { version = "*", default-features = false, features = ["default_fonts", "glow", "x11"] }
rfd = "*"
