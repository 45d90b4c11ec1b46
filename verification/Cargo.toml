[package]
name = "ukuma"
version = "0.1.0"
edition = "2021"
publish = false

[dependencies]
serde_json = "1"
serde = { version = "1", features = ["derive"] }
serde_yaml = "0.9"
thiserror = "2"
anyhow = "1"
tokio = { version = "1", features = ["full"] }
axum = "0.8"
tower-http = { version = "0.6", features = ["catch-panic", "timeout", "trace"] }
tower-default-headers = "*"
http-body-util = "0.1"
reqwest = "0.12"
surge-ping = "*"
futures = "0.3"
tracing = "0.1"
tracing-subscriber = { version = "0.3", features = ["json"] }
color-eyre = "0.6"
dotenvy = "0.15"
