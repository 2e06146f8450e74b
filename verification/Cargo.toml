[package]
name = "pakcodec"
version = "0.1.0"
edition = "2021"
publish = false

[dependencies]
inflate = "*"
miniz_oxide = "*"
indicatif = "*"
