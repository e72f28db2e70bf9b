[package]
name = "voxtral_mini_realtime"
version = "0.3.0"
edition = "2021"
publish = false

[dependencies]
anyhow = "1"
candle-core = "=0.10.2"
candle-transformers = "=0.10.2"
clap = { version = "=4.6.7", features = ["derive"] }
crossterm = "=0.28.1"
half = "=2.7.1"
hf-hub = { version = "=0.4.3", default-features = false, features = ["ureq", "rustls-tls"] }
libloading = "=0.8.9"
naga = { version = "=26.0.0", features = ["wgsl-in", "spv-out"] }
rand = "=0.8.8"
ratatui = "=0.29.0"
serde = { version = "1", features = ["derive"] }
serde_json = "1"
tokenizers = { version = "=0.21.4", default-features = false, features = ["fancy-regex"] }
tokio = { version = "=1.54.1", features = ["rt-multi-thread", "macros", "signal", "sync", "time"] }
tracing = "0.1"
tracing-subscriber = { version = "0.3", features = ["env-filter"] }
