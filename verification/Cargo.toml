[package]
name = "manr"
version = "0.1.0"
edition = "2021"
publish = false

[dependencies]
flate2 = "*"
walkdir = "*"
toml = "*"
log = "*"
env_logger = "*"
