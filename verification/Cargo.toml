[package]
name = "primary"
version = "0.1.0"
edition = "2021"
publish = false

[dependencies]
blsttc = "=8.0.2"
ed25519-dalek = { version = "=3.0.0", features = ["digest"] }
tokio = { version = "=1.53.2", default-features = false, features = ["sync", "rt", "macros", "time"] }
futures = "=0.3.34"
