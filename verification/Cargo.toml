[package]
name = "arcadeum"
version = "0.1.0"
edition = "2021"
publish = false

[dependencies]
tiny-keccak = "1"
rand_core = "0.6"
rand_xorshift = { version = "0.3", features = ["serde1"] }
serde = "1"
serde_cbor = "0.11"
