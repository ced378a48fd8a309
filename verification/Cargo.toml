[package]
name = "undrift_gpx"
version = "0.1.0"
edition = "2021"
publish = false

[dependencies]
quick-xml = "*"
undrift_gps = "*"
wasm-bindgen = "*"
