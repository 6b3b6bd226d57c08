[package]
name = "protohack"
version = "0.1.0"
edition = "2021"
publish = false

[dependencies]
sha256 = "*"
anyhow = "*"
serde = { version = "*", features = ["derive"] }
serde_json = "*"
tokio = { version = "*", features = ["full"] }
tokio-util = { version = "*", features = ["codec"] }
futures = "*"
tracing = "*"
tracing-subscriber = { version = "*", features = ["env-filter"] }
