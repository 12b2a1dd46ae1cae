[package]
name = "boosttorrent"
version = "0.1.0"
edition = "2021"
publish = false

[dependencies]
rust-crypto = "*"
sha1 = "*"
bit-vec = "*"
percent-encoding = "1"
rand = "*"
