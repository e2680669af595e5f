[package]
name = "cryptopals"
version = "0.1.0"
edition = "2021"
publish = false

[dependencies]
openssl = "0.10"
base64 = "0.13"
hex = "0.4"
csv = "1"
rand = "0.7"
