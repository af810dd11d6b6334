[package]
name = "gha_see"
version = "0.1.0"
edition = "2021"
publish = false

[dependencies]
glob = "0.3"
serde_json = "1"
sha2 = "0.10"
petgraph = "*"
serde = { version = "1", features = ["derive"] }
serde_yaml = "0.9"
dirs = "*"
flate2 = "1"
tar = "0.4"
reqwest = { version = "0.12", default-features = false, features = ["blocking", "rustls-tls"] }
axum = "0.8"
tokio = { version = "1", features = ["rt-multi-thread", "macros", "net", "sync"] }
tower-http = { version = "0.6", features = ["cors"] }
rust-embed = "8"
open = "5"
thiserror = "*"
