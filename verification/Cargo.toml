[package]
name = "dashchat"
version = "0.1.0"
edition = "2021"
publish = false

[dependencies]
uuid = { version = "=1.29.1", features = ["v7"] }
hex = "=0.4.3"
blake3 = "=1.8.7"
rand = "=0.8.8"
base64 = "=0.22.1"
serde = { version = "=1.0.229", features = ["derive"] }
axum = "=0.8.9"
tokio = { version = "=1.54.1", features = ["full"] }
redb = "=3.1.3"
tower-http = { version = "=0.6.11", features = ["cors", "trace"] }
clap = { version = "=4.6.7", features = ["derive"] }
tracing = "=0.1.44"
tracing-subscriber = { version = "=0.3.23", features = ["env-filter"] }
