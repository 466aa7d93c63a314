[package]
name = "kvs"
version = "0.1.0"
edition = "2021"
publish = false

[dependencies]
crc32fast = "*"
skiplist = "*"
sled = "*"
clap = { version = "*", features = ["derive"] }
env_logger = "*"
log = "*"
serde = { version = "*", features = ["derive"] }
toml = "*"
