[package]
name = "solver"
version = "0.1.0"
edition = "2021"
publish = false

[dependencies]
csv = "1"
itertools = "*"
once_cell = "1"
rand = "0.8"
serde_json = "1"
