[package]
name = "game2048"
version = "0.1.0"
edition = "2021"
publish = false

[dependencies]
rand = "*"
nalgebra = { version = "*", features = ["serde-serialize"] }
serde = { version = "*", features = ["derive"] }
serde_json = "*"
rayon = "*"
log = "*"
env_logger = "*"
wasm-bindgen = "*"
