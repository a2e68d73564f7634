[package]
name = "depend"
version = "0.1.0"
edition = "2021"
publish = false

[dependencies]
daggy = "*"
specs = "0.8"
itertools = "*"
libloading = "*"
