[package]
name = "gliner"
version = "0.1.0"
edition = "2021"
publish = false

[dependencies]
composable = "*"
cap = "*"
humansize = "*"
memory-stats = "*"
