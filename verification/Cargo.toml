[package]
name = "compress_arw"
version = "0.1.0"
edition = "2021"
publish = false

[dependencies]
sha1 = "0.10"
zstd = "0.13"
clap = { version = "4", features = ["derive"] }
wasm-bindgen = "0.2"
