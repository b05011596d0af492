[package]
name = "network-gateway"
version = "0.1.0"
edition = "2021"
publish = false

[dependencies]
alloy-primitives = { version = "1", default-features = false }
anyhow = "1"
axum = "0.8"
backoff = { version = "0.4", features = ["tokio"] }
clap = { version = "4", features = ["derive", "env"] }
dashmap = "6"
deadpool-redis = "0.18"
dotenv = "0.15"
eyre = "0.6"
hex = "0.4"
prometheus-client = "0.23"
serde = { version = "1", features = ["derive"] }
tokio = { version = "1", features = ["macros", "net", "rt-multi-thread", "signal", "sync", "time"] }
tonic = { version = "0.12", default-features = false }
tracing = "0.1"
zstd = "0.13"
