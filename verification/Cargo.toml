[package]
name = "boldify"
version = "0.1.0"
edition = "2021"
publish = false

[dependencies]
unicode-segmentation = "1"
serde = { version = "1", features = ["derive"] }
serde_json = "1"
thiserror = "*"
tokio = { version = "1", features = ["macros", "rt-multi-thread", "net", "signal", "io-std"] }
tracing = "0.1"
tracing-subscriber = { version = "0.3", features = ["fmt", "json", "env-filter"] }
lambda_http = "*"
axum = "*"
rmcp = { version = "*", features = ["server", "macros", "transport-io", "transport-streamable-http-server", "schemars"] }
once_cell = "1"
