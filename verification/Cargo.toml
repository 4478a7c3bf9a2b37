[package]
name = "binary"
version = "0.1.0"
edition = "2021"
publish = false

[dependencies]
blake3 = { version = "1", default-features = false, features = ["pure"] }
bls12_381 = "0.8"
curve25519-dalek = { version = "4", features = ["rand_core"] }
proc-macro2 = "1"
quote = "1"
syn = "2"

[dev-dependencies]
ff = "0.13"
group = "0.13"
rand = "0.8"
