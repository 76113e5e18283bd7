[package]
name = "kompyle"
version = "0.1.0"
edition = "2021"
publish = false

[dependencies]
tempfile = "3"
pyo3 = { version = "0.20", features = ["extension-module"] }
numpy = "0.20"
num-traits = "0.2"
