[package]
name = "lookahead_regex"
version = "0.1.0"
edition = "2021"
publish = false

[dependencies]
clap = { version = "4", features = ["derive"] }
env_logger = "0.10"
fancy-regex = "0.11"
log = "0.4"
ndarray = "0.15"
rand = "0.8"
