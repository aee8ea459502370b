[package]
name = "gol3d"
version = "0.1.0"
edition = "2021"
publish = false

[dependencies]
clap = { version = "*", default-features = false, features = ["std"] }
log = "*"
env_logger = { version = "*", default-features = false }
