[package]
name = "nepbpe"
version = "0.1.0"
edition = "2021"
publish = false

[dependencies]
unicode-normalization = "0.1"
pyo3 = { version = "0.22", features = ["extension-module", "abi3-py38"] }
