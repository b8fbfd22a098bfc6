[package]
name = "rust_bash"
version = "0.1.0"
edition = "2021"
publish = false

[dependencies]
parking_lot = "=0.12.5"
wasmtime = "=46.0.3"
wasi-common = "=46.0.3"
async-trait = "=0.1.92"
brush-parser = "*"
