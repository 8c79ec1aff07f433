[package]
name = "agg"
version = "0.1.0"
edition = "2021"
publish = false

[dependencies]
avt = "=0.18.0"
rgb = "=0.8.53"
