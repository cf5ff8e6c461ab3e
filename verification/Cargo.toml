[package]
name = "tlx"
version = "0.1.0"
edition = "2021"
publish = false

[dependencies]
ahash = "0.8"
lzma-rs = "0.3"
sha2 = "0.10"
hex = "0.4"
tar = "0.4"
pgp = "*"
reqwest = { version = "0.12", default-features = false, features = ["stream", "rustls-tls"] }
tokio = { version = "1", features = ["full"] }
async-channel = "2"
futures-util = "0.3"
bytes = "1"
dirs = "6"
dunce = "1"
tracing = "0.1"
tracing-appender = "0.2"
tracing-subscriber = { version = "0.3", features = ["env-filter"] }
