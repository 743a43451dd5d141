[package]
name = "wasm_regex_tree"
version = "0.1.0"
edition = "2021"
publish = false

[dependencies]
regex-syntax = "0.8"
wasm-bindgen = "0.2"
