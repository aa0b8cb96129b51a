[package]
name = "rwave"
version = "0.1.0"
edition = "2021"
publish = false

[dependencies]
rustc-hash = "*"
wellen = "*"
fst-reader = "*"
libloading = "*"
