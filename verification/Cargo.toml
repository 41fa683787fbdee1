[package]
name = "sudoku_sat"
version = "0.1.0"
edition = "2021"
publish = false

[dependencies]
regex = "1"
itertools = "0.10"
wasm-bindgen = "0.2"
