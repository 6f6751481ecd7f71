[package]
name = "advent_of_code"
version = "0.1.0"
edition = "2021"
publish = false

[dependencies]
ndarray = "0.15"
rustc-hash = "1.1"
num-integer = "0.1"
regex = "1"
rand = "0.8"
lazy_static = "1.4"
