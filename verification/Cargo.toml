[package]
name = "openpgp_stream"
version = "0.1.0"
edition = "2021"
publish = false

[dependencies]
openssl = "0.10"
flate2 = "1"
bzip2 = "*"
