[package]
name = "exr_deep"
version = "0.1.0"
edition = "2021"
publish = false

[dependencies]
half = "=2.7.1"
miniz_oxide = "=0.8.9"
smallvec = "=1.16.4"
egui = "=0.31.1"
eframe = { version = "=0.31.1", default-features = false, features = ["glow", "default_fonts", "x11"] }
rfd = "=0.15.4"
