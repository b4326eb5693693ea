[package]
name = "rust_edn"
version = "0.1.0"
edition = "2021"
publish = false

[dependencies]
regex = "1"
num = "*"
bigdecimal = "*"
ordered-float = "*"
lazy_static = "*"
