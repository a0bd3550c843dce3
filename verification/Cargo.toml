[package]
name = "utf8_rfc2279"
version = "0.1.0"
edition = "2021"
publish = false

[dependencies]
tinyvec = "1"
