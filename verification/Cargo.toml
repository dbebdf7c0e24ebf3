[package]
name = "file_crypto"
version = "0.1.0"
edition = "2021"
publish = false

[dependencies]
aes = "0.7"
block-modes = "0.8"
block-padding = "0.2"
chacha20poly1305 = "0.9"
rand = "0.8"
hex = "0.4"
md-5 = "0.10"
napi = "2"
napi-derive = "2"
