[package]
name = "tape-decode"
version = "0.1.0"
edition = "2021"
publish = false

[dependencies]
anyhow = "1"
num-traits = "0.2"
rustfft = "6"
sci-rs = "*"
serde = { version = "1", features = ["derive"] }
tracing = "0.1"
