[package]
name = "amazons"
version = "0.1.0"
edition = "2021"
publish = false

[dependencies]
bv = "=0.11.1"
smallvec = "=1.16.4"
wasm-bindgen = "=0.2.129"
