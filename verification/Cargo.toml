[package]
name = "lzw_compression"
version = "0.1.0"
edition = "2021"

[dependencies]
crossterm = "*"
nfd = "*"
num-format = "*"
