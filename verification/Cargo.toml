[package]
name = "diffy"
version = "0.1.0"
edition = "2021"

[dependencies]
itertools = "*"
rustc-hash = "*"
