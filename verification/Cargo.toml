[package]
name = "arith_search"
version = "0.1.0"
edition = "2021"
publish = false

[dependencies]
itertools = "0.12"
num-traits = "0.2"
