[package]
name = "bonsaigrid"
version = "0.1.0"
edition = "2021"
publish = false

[dependencies]
crc32fast = "1"
serde_json = "1"
io-uring = "0.7"
libc = "0.2"
socket2 = "0.5"
