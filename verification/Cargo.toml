[package]
name = "ic_kit"
version = "0.5.0"
edition = "2021"
publish = false

[dependencies]
sha2 = "=0.10.9"
serde = { version = "=1.0.229", features = ["derive"] }
ic-types = "=0.4.2"

[dev-dependencies]
serde_cbor = "=0.11.2"
