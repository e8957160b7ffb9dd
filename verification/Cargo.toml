[package]
name = "integritycheck"
version = "0.1.0"
edition = "2021"
publish = false

[dependencies]
rust-crypto = "*"
sha2 = "*"
walkdir = "*"
colored = "*"
getopts = "*"
time = "*"
deflate = "*"
inflate = "*"
