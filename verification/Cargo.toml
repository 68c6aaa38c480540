[package]
name = "rhai_url"
version = "0.1.0"
edition = "2021"
publish = false

[dependencies]
rhai = "*"
