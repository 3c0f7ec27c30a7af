[package]
name = "bigint_buffer2"
version = "0.1.0"
edition = "2021"
publish = false

[dependencies]
napi = { version = "2", features = ["napi6"] }
napi-derive = "2"
wasm-bindgen = "0.2"
js-sys = "0.3"
