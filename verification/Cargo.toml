[package]
name = "lsm_core"
version = "0.1.0"
edition = "2021"
publish = false

[dependencies]
ahash = "*"
crc32fast = "*"
rand = "*"
