[package]
name = "keypad"
version = "0.1.0"
edition = "2021"
publish = false

[dependencies]
regex = "1"
serde = { version = "1", features = ["derive"] }
toml = "*"
wasm-bindgen = "0.2"
