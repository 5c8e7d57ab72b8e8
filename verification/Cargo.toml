[package]
name = "client_core"
version = "0.1.0"
edition = "2021"
publish = false

[dependencies]
rand = "0.8"
generic-ec = { version = "*", features = ["curve-secp256k1", "curve-ed25519"] }
pyo3 = "0.22"
