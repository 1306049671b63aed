[package]
name = "ubiquity"
version = "0.1.0"
edition = "2021"
publish = false

[dependencies]
regex = "*"
fs2 = "*"
