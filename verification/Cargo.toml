[package]
name = "semigroup_math"
version = "0.1.0"
edition = "2021"
publish = false

[dependencies]
primal = "0.3"
rand = "0.8"
wasm-bindgen = "0.2"
rayon = "1"
