[package]
name = "ggca"
version = "1.0.0"
edition = "2021"
publish = false

[dependencies]
csv = "1"
fast-float = "0.2"
statrs = "*"
