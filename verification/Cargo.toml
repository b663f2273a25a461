[package]
name = "nix_otel"
version = "0.1.0"
edition = "2021"
publish = false

[dependencies]
opentelemetry = "*"
opentelemetry_sdk = { version = "*", features = ["trace", "rt-tokio"] }
opentelemetry-otlp = { version = "*", features = ["trace", "grpc-tonic"] }
thread_local = "*"
tokio = { version = "*", features = ["rt-multi-thread", "sync"] }
tonic = "*"
