[package]
name = "curvepress"
version = "0.2.0"
edition = "2021"
publish = false

[dependencies]
thiserror = "2"
wasm-bindgen = "0.2"
pyo3 = "0.23"
numpy = "0.23"
