[package]
name = "kinesis_aggregator"
version = "0.1.0"
edition = "2021"
publish = false

[dependencies]
serde = { version = "*", features = ["derive"] }
serde_json = "*"
tokio = { version = "*", features = ["full"] }
axum = "*"
aws-config = "*"
aws-sdk-kinesis = "*"
lambda-extension = "*"
reqwest = { version = "*", default-features = false, features = ["rustls-tls"] }
chrono = "*"
gethostname = "*"
uuid = { version = "*", features = ["v4"] }
tracing = "*"
tracing-subscriber = "*"
