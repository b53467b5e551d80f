[package]
name = "mini_lsm_starter"
version = "0.1.0"
edition = "2021"
publish = false

[dependencies]
anyhow = "=1.0.104"
bytes = "=1.12.1"
crc32fast = "1"
farmhash = "1"
