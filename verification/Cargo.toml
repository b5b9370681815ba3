[package]
name = "catchhook"
version = "0.1.0"
edition = "2021"
publish = false

[dependencies]
anyhow = "=1.0.104"
axum = "=0.8.9"
fs-err = "*"
redb = "=4.3.0"
serde = { version = "=1.0.229", features = ["derive"] }
serde_json = "=1.0.151"
tokio = { version = "=1.53.2", features = ["full"] }
tower-http = { version = "=0.7.1", features = ["fs", "trace"] }
tracing = "=0.1.44"
tracing-subscriber = { version = "=0.3.23", features = ["env-filter"] }

[dev-dependencies]
tempfile = "=3.27.0"
