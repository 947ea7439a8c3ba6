[package]
name = "otel_util"
version = "0.1.0"
edition = "2021"
publish = false

[dependencies]
opentelemetry = "0.22"
opentelemetry_sdk = { version = "0.22", features = ["rt-tokio"] }
opentelemetry-otlp = "0.15"
opentelemetry-semantic-conventions = "0.14"
tracing = "0.1"
tracing-core = "0.1"
tracing-subscriber = "0.3"
tracing-opentelemetry = "0.23"
tokio = { version = "1", features = ["rt-multi-thread", "macros", "time"] }
serde = { version = "1", features = ["derive"] }
anyhow = "1"
