[package]
name = "nexum_core"
version = "0.1.0"
edition = "2021"
publish = false

[dependencies]
sled = "*"
sqlparser = "*"

[dev-dependencies]
tempfile = "*"
