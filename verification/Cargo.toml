[package]
name = "dsb"
version = "0.1.0"
edition = "2021"
publish = false

[dependencies]
swash = "*"
fimg = "*"
lru-cache = "*"
umath = "*"
itertools = "*"
