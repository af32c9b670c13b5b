[package]
name = "jungle_rust"
version = "0.1.0"
edition = "2021"
publish = false

[dependencies]
pyo3 = { version = "0.22", features = ["abi3-py38"] }
wasm-bindgen = "0.2"
