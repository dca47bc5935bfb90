[package]
name = "c2pa-fonts"
version = "0.2.0"
edition = "2021"
rust-version = "1.95"
publish = false

[dependencies]
c2pa = { version = "=0.90.22", default-features = false, features = ["rust_native_crypto"] }
pyo3 = { version = "=0.30.1", features = ["extension-module"] }
wasm-bindgen = "=0.2.130"
