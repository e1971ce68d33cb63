[package]
name = "mini_blockchain"
version = "0.1.0"
edition = "2021"
publish = false

[dependencies]
ring = "0.17"
rust-crypto = "0.2"
bs58 = "0.5"
data-encoding = "2"
num-bigint = "0.4"
uuid = { version = "1", features = ["v4"] }
bincode = "1"
serde = { version = "1", features = ["derive"] }
sled = "0.34"
structopt = "0.3"
env_logger = "0.10"
log = "0.4"
