[package]
name = "game_logic"
version = "0.1.0"
edition = "2021"
publish = false

[dependencies]
rand = "0.8"
serde = { version = "1", features = ["derive"] }
wasm-bindgen = "0.2"
gloo-utils = { version = "0.2", features = ["serde"] }
