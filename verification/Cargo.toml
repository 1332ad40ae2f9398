[package]
name = "video_transcriber"
version = "0.1.0"
edition = "2021"
publish = false

[dependencies]
anyhow = "1"
chrono = "0.4"
hound = "3.5"
serde = { version = "1", features = ["derive"] }
serde_json = "1"
tempfile = "3"
