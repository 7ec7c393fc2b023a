[package]
name = "cykl"
version = "0.1.0"
edition = "2021"
publish = false

[dependencies]
tspf = "*"
rand = "0.8"
