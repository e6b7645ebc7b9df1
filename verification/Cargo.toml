[package]
name = "crdt_enc"
version = "0.1.0"
edition = "2021"
publish = false

[dependencies]
chacha20poly1305 = "*"
rand = "*"
uuid = { version = "*", features = ["v4"] }
tiny-keccak = { version = "*", features = ["sha3"] }
data-encoding = "*"
