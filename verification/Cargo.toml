[package]
name = "stored"
version = "0.1.0"
edition = "2021"
publish = false

[dependencies]
storm-core = "*"
sled = "*"
redb = "*"
