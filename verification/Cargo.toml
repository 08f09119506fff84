[package]
name = "pallet_network"
version = "0.1.0"
edition = "2021"
publish = false

[dependencies]
x25519-dalek = { version = "=2.0.1", features = ["static_secrets"] }
sp-crypto-hashing = "=0.1.0"
libm = "=0.2.16"
