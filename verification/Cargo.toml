[package]
name = "rust_fast_cluster"
version = "0.1.0"
edition = "2021"
publish = false

[dependencies]
ndarray = "0.15"
numpy = "0.20"
ordered-float = "4"
pyo3 = "0.20"
