[package]
name = "rs115_bot"
version = "0.1.0"
edition = "2021"
publish = false

[dependencies]
rust-crypto = "0.2"
data-encoding = "2"
pakr-iec = "*"
regex = "1"
magnet-url = "*"
base64 = "0.13"
openssl = "0.10"
serde = { version = "1", features = ["derive"] }
serde_json = "1"
anyhow = "1"
tokio = { version = "1", features = ["fs", "io-util", "rt-multi-thread", "macros"] }
log = "0.4"
