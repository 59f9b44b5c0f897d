[package]
name = "oid_walk"
version = "0.1.0"
edition = "2021"
publish = false

[dependencies]
rasn = "*"
thiserror = "*"
