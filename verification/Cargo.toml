[package]
name = "evmtrace"
version = "0.1.0"
edition = "2021"
publish = false

[dependencies]
evmole = "*"
hex = "*"
