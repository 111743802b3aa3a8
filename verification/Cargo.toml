[package]
name = "viz_core"
version = "0.3.0"
edition = "2021"
publish = false

[dependencies]
geo-types = "0.7"
js-sys = "0.3"
wasm-bindgen = "0.2"
