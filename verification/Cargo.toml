[package]
name = "pliron-circt"
version = "0.1.0"
edition = "2021"
publish = false

[dependencies]
awint = "=0.19.0"
pliron = "0.18"
rustc-hash = "=2.1.3"
sv-parser = "=0.13.5"
