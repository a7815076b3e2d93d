[package]
name = "ristretto255_dlog"
version = "0.1.0"
edition = "2021"
publish = false

[dependencies]
curve25519-dalek = "4"
rand_core = { version = "0.6", features = ["getrandom"] }
web-time = "1"
