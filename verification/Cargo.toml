[package]
name = "neon"
version = "0.1.0"
edition = "2021"
publish = false

[dependencies]
unicode-ident = "1"
unicode-normalization = "0.1"
