[package]
name = "c2pa-unstructured-text"
version = "0.1.0"
edition = "2021"
publish = false

[dependencies]
sha2 = "0.10"
unicode-normalization = "0.1"
wasm-bindgen = "0.2"
js-sys = "0.3"
pyo3 = "0.23"
