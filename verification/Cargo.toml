[package]
name = "quantum_sim"
version = "0.1.0"
edition = "2021"
publish = false

[dependencies]
colored = "2"
lazy_static = "1"
rand = "0.8"
