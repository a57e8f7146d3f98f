[package]
name = "onu_refactor"
version = "0.1.0"
edition = "2021"
publish = false

[dependencies]
wasm-encoder = "=0.263.0"
chrono = "=0.4.45"
