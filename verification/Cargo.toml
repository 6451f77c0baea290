[package]
name = "linebreak"
version = "0.1.0"
edition = "2021"
publish = false

[dependencies]
unicode-segmentation = "1"
wasm-bindgen = "0.2"
reqwest = { version = "0.11", default-features = false, features = ["blocking"] }
error-chain = "0.12"
