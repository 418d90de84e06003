[package]
name = "flashpoint"
version = "0.1.0"
edition = "2021"
publish = false

[dependencies]
ark-bn254 = "0.4"
ark-groth16 = "0.4"
ark-relations = "0.4"
ark-serialize = "0.4"
ark-snark = "0.4"
axum = { version = "0.7", features = ["ws", "macros"] }
console-subscriber = "0.4"
once_cell = "1"
opentelemetry = "0.24"
opentelemetry-otlp = { version = "0.17", features = ["http-proto", "reqwest-client"] }
opentelemetry_sdk = { version = "0.24", features = ["rt-tokio"] }
prometheus = "0.13"
pyo3 = { version = "0.20", features = ["extension-module", "abi3-py38"] }
rand = "0.8"
reqwest = { version = "0.12", default-features = false, features = ["json"] }
serde = { version = "1", features = ["derive"] }
serde_json = "1"
tokio = { version = "1", features = ["full"] }
tower = { version = "0.4", features = ["buffer", "limit", "load-shed", "util"] }
tower-http = { version = "0.5", features = ["cors"] }
tracing = "0.1"
tracing-opentelemetry = "0.25"
tracing-subscriber = { version = "0.3", features = ["env-filter"] }
