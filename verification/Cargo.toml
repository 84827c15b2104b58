[package]
name = "r1cs_gadgets"
version = "0.1.0"
edition = "2021"
publish = false

[dependencies]
bulletproofs = { version = "=4.0.0", features = ["yoloproofs"] }
curve25519-dalek-ng = "=4.1.1"
merlin = "=3.0.0"
rand = "=0.8.8"
