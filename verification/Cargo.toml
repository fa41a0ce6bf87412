[package]
name = "semver-rs"
version = "0.1.0"
edition = "2021"
publish = false

[dependencies]
thiserror = "*"
serde = { version = "*", features = ["derive"] }
serde_json = "*"
wasm-bindgen = "*"
serde-wasm-bindgen = "*"
