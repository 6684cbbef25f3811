[package]
name = "lemons_search"
version = "0.1.0"
edition = "2021"
publish = false

[dependencies]
nucleo-matcher = "0.3"
wasm-bindgen = "0.2"
web-sys = "0.3"
console_error_panic_hook = "0.1"
