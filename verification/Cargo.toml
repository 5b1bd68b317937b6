[package]
name = "ppose"
version = "0.5.0"
edition = "2021"
publish = false

[dependencies]
blake3 = "1"
chacha20poly1305 = "0.10"
ed25519-dalek = { version = "2", features = ["rand_core"] }
rand_core = { version = "0.6", features = ["getrandom"] }
snow = "0.9"
thiserror = "1"
x25519-dalek = { version = "2", features = ["static_secrets"] }
