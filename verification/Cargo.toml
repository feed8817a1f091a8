[package]
name = "subway_maze"
version = "0.1.0"
edition = "2021"
publish = false

[dependencies]
nalgebra = "*"
image = "*"
imageproc = "*"
wasm-bindgen = "*"
js-sys = "*"
