[package]
name = "zen_signal"
version = "0.1.0"
edition = "2021"
publish = false

[dependencies]
lru = "=0.18.5"
crossbeam-channel = "=0.5.17"
chrono = "=0.4.45"
dirs = "=7.0.0"
serde = { version = "=1.0.229", features = ["derive"] }
toml = "=1.1.7"
