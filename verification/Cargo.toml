[package]
name = "sumcheck"
version = "0.1.0"
edition = "2021"
publish = false

[dependencies]
ark-bn254 = "*"
ark-ff = "*"
sha3 = "*"

[dev-dependencies]
rand = "*"
