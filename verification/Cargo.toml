[package]
name = "dekho"
version = "0.1.0"
edition = "2021"
publish = false

[dependencies]
anyhow = "1"
clap = { version = "4", features = ["derive"] }
inquire = "0.7"
librqbit = { version = "9", default-features = false, features = ["http-api", "rust-tls", "tracing-subscriber-utils"] }
librqbit-dualstack-sockets = "*"
reqwest = { version = "0.12", default-features = false, features = ["json", "rustls-tls"] }
serde = { version = "1", features = ["derive"] }
serde_json = "1"
tokio = { version = "1", features = ["full"] }
