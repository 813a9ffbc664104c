[package]
name = "vortex"
version = "0.1.0"
edition = "2021"
publish = false

[dependencies]
httparse = "1"
io-uring = "0.7"
itoa = "1"
libc = "0.2"
mimalloc = "0.1"
nanorand = "0.7"
