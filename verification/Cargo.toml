[package]
name = "immix_rust"
version = "0.1.0"
edition = "2021"
publish = false

[dependencies]
time = "=0.1.45"
lazy_static = "=1.5.1"
