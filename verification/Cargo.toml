[package]
name = "alejandra"
version = "0.1.0"
edition = "2021"
publish = false

[dependencies]
human-sort = "0.2"
rnix = "0.10"
