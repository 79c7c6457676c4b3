[package]
name = "btc_lib"
version = "0.1.0"
edition = "2021"
publish = false

[dependencies]
anyhow = "1"
argh = "0.1"
bigdecimal = "0.4"
chrono = "0.4"
ciborium = "0.2"
dashmap = "6"
ecdsa = { version = "0.16", features = ["signing", "verifying"] }
hex = "0.4"
k256 = { version = "0.13", features = ["ecdsa", "pem"] }
rand = "0.8"
sha256 = { version = "1", default-features = false }
spki = { version = "0.7", features = ["pem"] }
static_init = "1"
tokio = { version = "1", features = ["full"] }
uuid = { version = "1", features = ["v4"] }
