[package]
name = "camtrap"
version = "0.1.0"
edition = "2021"
publish = false

[dependencies]
uuid = { version = "=1.27.0", features = ["v4"] }
walkdir = "=2.5.0"
toml = "=1.1.7"
serde = { version = "=1.0.229", features = ["derive"] }
serde_json = "*"
chrono = "=0.4.45"
crossbeam-channel = "=0.5.17"
anyhow = "=1.0.104"
image = "=0.25.10"
jpeg-decoder = "=0.3.2"
ffmpeg-sidecar = "=2.6.0"
nom-exif = "=3.8.0"
