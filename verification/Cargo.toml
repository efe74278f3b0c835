[package]
name = "new_york_utils"
version = "0.1.0"
edition = "2021"
publish = false

[dependencies]
rand = "0.8"
serde = "1"
serde_cbor = "0.11"
