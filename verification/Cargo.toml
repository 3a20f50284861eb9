[package]
name = "ruslingam"
version = "0.1.0"
edition = "2021"
publish = false

[dependencies]
ndarray = "0.16"
numpy = "0.23"
pyo3 = "0.23"
rayon = "1"
