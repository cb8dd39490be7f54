[package]
name = "rust-btcd"
version = "0.1.0"
edition = "2021"
publish = false

[dependencies]
bitcoin = { version = "=0.32.102", features = ["rand-std"] }
rocksdb = { version = "=0.25.0", default-features = false }
serde = { version = "=1.0.229", features = ["derive"] }
thiserror = "=2.0.21"
tokio = { version = "=1.54.1", features = ["full"] }
toml = "=1.1.8"
tracing = "=0.1.44"

[dev-dependencies]
tempfile = "=3.27.0"
