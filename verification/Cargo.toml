[package]
name = "rheader"
version = "0.1.0"
edition = "2021"
publish = false

[dependencies]
anyhow = "=1.0.104"
flate2 = "=1.1.10"

[dev-dependencies]
regex = "*"
