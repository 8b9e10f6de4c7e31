[package]
name = "omegaupload"
version = "0.1.0"
edition = "2021"
publish = false

[dependencies]
chacha20poly1305 = "*"
argon2 = "*"
rand = "*"
