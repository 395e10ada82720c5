[package]
name = "ristretto448"
version = "0.1.0"
edition = "2021"
publish = false

[dependencies]
subtle = "2"
