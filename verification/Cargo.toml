[package]
name = "minmax"
version = "0.1.0"
edition = "2021"
publish = false

[dependencies]
ahash = "0.8"
itertools = "0.12"
rand = "0.8"
