[package]
name = "ultlib"
version = "0.1.0"
edition = "2021"
publish = false

[dependencies]
rand = "0.8"
colored = "2"
itertools = "0.10"
quick-error = "1.2"
shrust = "*"
