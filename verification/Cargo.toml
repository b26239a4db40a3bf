[package]
name = "locallink"
version = "0.1.0"
edition = "2021"
publish = false

[dependencies]
base64 = "0.22"
hmac = "0.12"
sha2 = "0.10"
chacha20poly1305 = "0.10"
rand = "0.8"
uuid = { version = "1", features = ["v4"] }
serde = { version = "1", features = ["derive"] }
serde_json = "1"
tokio = { version = "1", features = ["full"] }
anyhow = "1"
fs2 = "0.4"
tracing-subscriber = "0.3"
