[package]
name = "cozyvim"
version = "0.1.0"
edition = "2021"
publish = false

[dependencies]
chrono = { version = "*", default-features = false, features = ["alloc", "clock"] }
serde = { version = "1", features = ["derive"] }
serde_json = "1"
toml = "*"
include_dir = "*"
directories = "*"
rust-i18n = "*"
eframe = { version = "*", default-features = false, features = ["glow", "x11", "default_fonts"] }
