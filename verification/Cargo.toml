[package]
name = "tren"
version = "0.5.0"
edition = "2021"
publish = false

[dependencies]
crc32c = "0.6"
libc = "0.2"
rand = "0.8"
