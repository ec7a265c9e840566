[package]
name = "alpha"
version = "0.1.0"
edition = "2021"
publish = false

[dependencies]
hugr = "=0.30.3"
pyo3 = { version = "*", features = ["abi3-py38", "extension-module"] }
tket = { version = "=0.22.1", default-features = false }
