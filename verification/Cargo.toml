[package]
name = "rtdp_core"
version = "0.1.0"
edition = "2021"
publish = false

[dependencies]
byteorder = "1"
crc32c = "0.6"
clap = { version = "4", features = ["derive"] }
crossbeam-channel = "0.5"
parking_lot = "0.12"
serde = { version = "1", features = ["derive"] }
serde_json = "1"
thiserror = "1"
