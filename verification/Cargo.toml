[package]
name = "chomp"
version = "0.1.0"
edition = "2021"
publish = false

[dependencies]
kamadak-exif = "=0.6.1"
serde = { version = "=1.0.229", features = ["derive"] }
serde_json = "=1.0.151"
