[package]
name = "equation_finder"
version = "0.1.0"
edition = "2021"
publish = false

[dependencies]
itertools = "*"
wasm-bindgen = "*"
console_error_panic_hook = "*"
