[package]
name = "melt"
version = "0.1.0"
edition = "2021"
publish = false

[dependencies]
zstd = "*"
serde_json = "1"
jsonptr = "*"
uuid = { version = "1", features = ["v4"] }
rand = "*"
crossbeam-channel = "*"
bincode = "1"
serde = { version = "1", features = ["derive"] }
num-format = "*"
human_bytes = "*"
