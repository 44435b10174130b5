[package]
name = "self_encryption"
version = "0.1.0"
edition = "2021"
publish = false

[dependencies]
brotli = "=9.0.0"
memmap = "=0.7.0"
rand = "=0.10.3"
tiny-keccak = { version = "=2.0.2", features = ["sha3"] }
crypto_secretbox = "=0.1.1"
