[package]
name = "johnson_clique"
version = "0.1.0"
edition = "2021"
publish = false

[dependencies]
bit-set = "*"
itertools = "*"
ndarray = "*"
