[package]
name = "light_mixer"
version = "0.1.0"
edition = "2021"
publish = false

[dependencies]
cpal = "0.15"
crossterm = "0.28"
log = "0.4"
rustfft = "6"
tokio = { version = "1", features = ["rt", "sync", "time"] }
