[package]
name = "ferrous"
version = "0.2.0"
edition = "2021"
publish = false

[dependencies]
sha2 = "0.10"
blake3 = { version = "1", features = ["pure"] }
ripemd = "0.1"
bech32 = "0.11"
num-bigint = "0.4"
curve25519-dalek-ng = "4"
bulletproofs = "4"
merlin = "3"
rand = "0.8"
hex = "0.4"
serde = { version = "1", features = ["derive"] }
serde_json = "1"
bincode = "1"
secp256k1 = { version = "0.28", features = ["rand-std"] }
