[package]
name = "utf15"
version = "0.1.0"
edition = "2021"
publish = false

[dependencies]
wasm-bindgen = "0.2"
js-sys = "0.3"
web-sys = { version = "0.3", features = ["console"] }
getrandom = { version = "0.2", features = ["custom"] }
base64 = "0.13"
lazy_static = "1"
console_error_panic_hook = "0.1"
