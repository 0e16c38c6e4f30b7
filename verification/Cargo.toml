[package]
name = "stembed"
version = "0.1.0"
edition = "2021"
publish = false

[dependencies]
unicode_categories = "0.1"
unicode-normalization-alignments = "0.1"
half = "2"
serde = { version = "1", features = ["derive"] }
serde_json = "1"
hf-hub = "0.3"
wasm-bindgen = "0.2"
console_error_panic_hook = "0.1"
