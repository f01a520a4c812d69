[package]
name = "wasm_codec"
version = "0.1.0"
edition = "2021"
publish = false

[dependencies]
rayon = "*"

[dev-dependencies]
leb128 = "*"
