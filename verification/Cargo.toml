[package]
name = "grpview"
version = "0.1.0"
edition = "2021"
publish = false

[dependencies]
zstd = "*"
bcdec_rs = "*"
anyhow = "*"
