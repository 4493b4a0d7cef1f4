[package]
name = "sort_zh"
version = "0.1.0"
edition = "2021"
publish = false

[dependencies]
chinese-number = "=0.8.2"
rust_icu_ucol = "=5.8.0"
js-sys = "=0.3.106"
wasm-bindgen = "=0.2.129"
