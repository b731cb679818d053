[package]
name = "wallpaper_colors"
version = "0.1.0"
edition = "2021"
publish = false

[dependencies]
material-colors = "=0.4.2"
image = { version = "=0.25.10", default-features = false, features = ["png", "jpeg"] }
indexmap = "=2.14.2"
ahash = "=0.8.12"
bitflags = "=2.13.2"
serde = { version = "=1.0.229", features = ["derive"] }
serde_json = "=1.0.154"
