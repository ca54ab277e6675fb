[package]
name = "circom2_compiler"
version = "0.1.0"
edition = "2021"
publish = false

[dependencies]
blake2-rfc = "0.2"
hex = "0.4"
rocksdb = "*"
serde = { version = "1", features = ["derive"] }
serde_cbor = "0.11"
