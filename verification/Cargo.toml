[package]
name = "enfuse"
version = "0.1.0"
edition = "2021"
publish = false

[dependencies]
ringbuf = "0.4"
rustfft = "6"
iced = { version = "0.14", default-features = false, features = ["canvas", "tokio", "tiny-skia", "x11"] }
tokio = { version = "1", features = ["rt", "sync"] }
rayon = "1"
log = "0.4"
env_logger = { version = "0.11", default-features = false }
ndarray = "0.16"
ort = { version = "=2.0.0-rc.10", default-features = false, features = ["std", "ndarray"] }
midir = "0.10"
