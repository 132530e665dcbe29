[package]
name = "pyift"
version = "0.1.0"
edition = "2021"
publish = false

[dependencies]
ndarray = "0.15"
ndarray-stats = "0.5"
num-traits = "0.2"
numpy = "0.20"
pyo3 = "0.20"
