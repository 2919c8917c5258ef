[package]
name = "proto_uv_backend"
version = "0.1.0"
edition = "2021"
publish = false

[dependencies]
pep440_rs = "=0.7.3"
proto_pdk_api = "=0.35.0"
proto_pdk = "=0.36.0"
extism-pdk = "1"
schematic = "*"
serde = { version = "1", features = ["derive"] }

[dev-dependencies]
serde_json = "1"
