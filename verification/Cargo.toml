[package]
name = "dsqlex"
version = "0.1.0"
edition = "2021"
publish = false

[dependencies]
rust_decimal = "1"
regex = "1"
