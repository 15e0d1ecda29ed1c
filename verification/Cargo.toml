[package]
name = "mdict_reader"
version = "0.1.0"
edition = "2021"
publish = false

[dependencies]
base64 = "*"
encoding_rs = "*"
flate2 = "*"
minilzo-rs = "*"
