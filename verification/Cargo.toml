[package]
name = "qfocus"
version = "0.1.0"
edition = "2021"
publish = false

[dependencies]
quvyta-framework = "*"
toml = "=0.9.8"
