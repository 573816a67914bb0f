[package]
name = "dfs"
version = "0.1.0"
edition = "2021"
publish = false

[dependencies]
bincode = "1.3"
blake3 = { version = "1", features = ["pure"] }
clap = { version = "4", features = ["derive"] }
hex = "0.4"
opentelemetry = "0.30"
opentelemetry-otlp = { version = "0.30", default-features = false, features = ["grpc-tonic", "trace"] }
opentelemetry_sdk = "0.30"
prost = "0.13"
rand = "0.9"
reed-solomon-erasure = "6"
serde = { version = "1", features = ["derive"] }
thiserror = "2"
tokio = { version = "1", features = ["full"] }
tonic = "0.13"
tracing = "0.1"
tracing-opentelemetry = "0.31"
tracing-subscriber = { version = "0.3", features = ["env-filter", "json"] }
uuid = { version = "1", features = ["v4"] }
