[package]
name = "simplex"
version = "0.1.0"
edition = "2021"

[dependencies]
itertools = "=0.10.5"
eframe = { version = "0.21", default-features = false, features = ["glow"] }
egui = { version = "0.21", default-features = false }
tracing-subscriber = "0.3"
console_error_panic_hook = "0.1"
tracing-wasm = "0.2"
wasm-bindgen-futures = "0.4"
