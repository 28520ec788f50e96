[package]
name = "ratelimit_rs"
version = "0.1.0"
edition = "2021"
publish = false

[dependencies]
async-std = "=1.13.2"
futures = "=0.3.34"
serde = { version = "=1.0.229", features = ["derive"] }
toml = "=0.5.11"

[dev-dependencies]
mock_instant = "=0.3.2"
regex = "1"
