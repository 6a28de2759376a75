[package]
name = "kcp"
version = "0.1.0"
edition = "2021"

[dependencies]
byteorder = "1"

[dev-dependencies]
rand = "0.8"
time = "0.1"
