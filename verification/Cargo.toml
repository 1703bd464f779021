[package]
name = "block_builder"
version = "0.1.0"
edition = "2021"
publish = false

[dependencies]
async-stream = "0.3"
futures = "0.3"
hex = "0.4"
prost = "0.12"
pyo3 = "0.20"
serde_json = "1"
sha3 = "0.10"
