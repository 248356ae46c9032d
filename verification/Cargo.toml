[package]
name = "tstring"
version = "0.1.0"
edition = "2021"
publish = false

[dependencies]
num-bigint = "0.4"
serde_json = "1"
toml = "0.9"
