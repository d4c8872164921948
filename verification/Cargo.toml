[package]
name = "qkd_kme_key_spread"
version = "0.1.0"
edition = "2021"
publish = false

[dependencies]
ssss = "*"
