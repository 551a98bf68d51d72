[package]
name = "websubmit"
version = "0.1.0"
edition = "2021"
publish = false

[dependencies]
rust-crypto = "0.2"
clap = "*"
toml = "*"
