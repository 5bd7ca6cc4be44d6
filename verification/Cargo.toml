[package]
name = "tile_physics"
version = "0.1.0"
edition = "2021"
publish = false

[dependencies]
instant = { version = "0.1", features = ["wasm-bindgen"] }
js-sys = "0.3"
wasm-bindgen = "0.2"
