[package]
name = "lazy_combinatorics"
version = "0.1.0"
edition = "2021"
publish = false

[dependencies]
streaming-iterator = "0.1"
