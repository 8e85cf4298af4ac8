[package]
name = "wasm_dylink"
version = "0.1.0"
edition = "2021"
publish = false

[dependencies]
anyhow = "=1.0.104"
wasmtime = "36"
wasmtime-wasi = "36"
