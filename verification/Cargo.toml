[package]
name = "bulwark"
version = "0.1.0"
edition = "2021"
publish = false

[dependencies]
ahash = "0.8"
arc-swap = "1"
futures = "0.3"
hickory-proto = "0.26"
ipnet = "2"
lru = "*"
parking_lot = "0.12"
quinn = "0.11"
rand = "0.9"
regex = "1"
reqwest = { version = "0.12", default-features = false, features = ["rustls-tls", "http2"] }
rustls = { version = "0.23", default-features = false, features = ["ring", "std", "tls12", "logging"] }
rustls-pki-types = "1"
serde = { version = "1", features = ["derive", "rc"] }
serde_json = "1"
serde_yaml = "0.9"
thiserror = "2"
tokio = { version = "1", features = ["full"] }
tokio-rustls = { version = "0.26", default-features = false, features = ["ring", "tls12", "logging"] }
tracing = "0.1"
utoipa = "5"
webpki-roots = "1"

[dev-dependencies]
tempfile = "3"
