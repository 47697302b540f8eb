[package]
name = "ethbridge"
version = "0.1.0"
edition = "2021"
publish = false

[dependencies]
rust-crypto = "*"
sha2 = "*"
sha3 = "*"
borsh = "*"
serde = "*"
rlp = "*"
hex = "*"
