[package]
name = "zerotick"
version = "0.1.0"
edition = "2021"
publish = false

[dependencies]
axum = "0.7"
base64 = "0.22"
clap = { version = "4", features = ["derive"] }
colored = "3"
dashmap = "6"
indicatif = "0.17"
rand = "0.9"
rustls = { version = "0.23", default-features = false, features = ["ring", "std", "tls12", "logging"] }
serde = { version = "1", features = ["derive"] }
serde_json = "1"
sha1 = "0.10"
thiserror = "2"
tokio = { version = "1", features = ["full"] }
tokio-rustls = { version = "0.26", default-features = false, features = ["ring", "tls12", "logging"] }
tracing = "0.1"
tracing-subscriber = { version = "0.3", features = ["env-filter"] }
webpki-roots = "0.26"
