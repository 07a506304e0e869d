[package]
name = "fanva"
version = "0.1.0"
edition = "2021"
publish = false

[dependencies]
lasso = "0.7"
