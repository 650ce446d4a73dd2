[package]
name = "ic-laya-core"
version = "0.2.0"
edition = "2021"
publish = false

[dependencies]
sha2 = "=0.10.9"
candid = "=0.10.39"
serde = { version = "=1.0.229", features = ["derive"] }
serde_json = "=1.0.154"
bincode = "=1.3.3"
ic-cdk = "=0.20.3"
tokenizers = { version = "0.21", default-features = false, features = ["unstable_wasm"] }
