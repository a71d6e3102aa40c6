[package]
name = "didcomm_headers"
version = "0.1.0"
edition = "2021"
publish = false

[dependencies]
rand = "0.8"
serde = "1"

[dev-dependencies]
serde_json = "1"
base64-url = "1"
