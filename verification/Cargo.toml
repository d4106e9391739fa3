[package]
name = "kvs"
version = "0.1.0"
edition = "2021"
publish = false

[dependencies]
sled = "0.34"
clap = "2"
log = "0.4"
env_logger = "0.10"
chrono = "0.4"
