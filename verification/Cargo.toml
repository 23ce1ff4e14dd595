[package]
name = "qvass"
version = "0.1.0"
edition = "2021"
publish = false

[dependencies]
num-complex = "=0.4.6"
num-traits = "=0.2.19"
rand = { version = "=0.8.8", features = ["small_rng"] }
