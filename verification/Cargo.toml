[package]
name = "scansector"
version = "0.1.0"
edition = "2021"
publish = false

[dependencies]
roxmltree = "0.18"
json = "0.12"
eframe = { version = "0.22", default-features = false, features = ["default_fonts", "glow"] }
rfd = "0.11"
