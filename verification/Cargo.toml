[package]
name = "opensolver"
version = "0.1.0"
edition = "2021"
publish = false

[dependencies]
rust_poker = "*"
permutation = "*"
rayon = "*"
mimalloc = "*"
