[package]
name = "quark"
version = "0.1.0"
edition = "2021"
publish = false

[dependencies]
bigdecimal = "0.4"
num = "0.4"
bit-vec = "*"
