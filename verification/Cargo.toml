[package]
name = "opening_explorer"
version = "0.1.0"
edition = "2021"
publish = false

[dependencies]
axum = "=0.8.9"
byteorder = "=1.5.0"
clap = { version = "=4.6.7", features = ["derive"] }
env_logger = "=0.11.11"
futures-util = "=0.3.34"
rocksdb = { version = "=0.25.0", default-features = false }
rustc-hash = "=2.1.3"
serde = { version = "=1.0.229", features = ["derive"] }
serde_json = "=1.0.154"
serde_with = "=3.24.0"
shakmaty = { version = "=0.20.7", features = ["variant"] }
tokio = { version = "=1.54.1", features = ["full"] }
tower-http = { version = "=0.7.1", features = ["set-header"] }
