[package]
name = "dns_live"
version = "0.1.0"
edition = "2021"
publish = false

[dependencies]
axum = "0.6"
chrono = "0.4"
minijinja = "1"
serde = { version = "1", features = ["derive"] }
serde_json = "1"
tokio = { version = "1", features = ["full"] }
trust-dns-client = "0.22"
trust-dns-resolver = "0.22"
