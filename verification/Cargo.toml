[package]
name = "momoa"
version = "0.1.0"
edition = "2021"
publish = false

[dependencies]
serde = { version = "1", features = ["derive"] }
thiserror = "1"
wasm-bindgen = "0.2"
serde-wasm-bindgen = "0.6"
