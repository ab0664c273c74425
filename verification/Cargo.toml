[package]
name = "dns_blocker"
version = "0.1.0"
edition = "2021"
publish = false

[dependencies]
anyhow = "=1.0.104"
axum = "=0.8.9"
diesel = { version = "=2.3.14", features = ["sqlite", "r2d2"] }
mime_guess = "=2.0.5"
reqwest = { version = "=0.12.28", default-features = false, features = ["rustls-tls"] }
rust-embed = { version = "=8.13.0", features = ["interpolate-folder-path"] }
serde = { version = "=1.0.229", features = ["derive"] }
serde_json = "=1.0.154"
tokio = { version = "=1.54.1", features = ["full"] }
tracing = "=0.1.44"
tracing-subscriber = "=0.3.23"
