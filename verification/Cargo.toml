[package]
name = "vsdb"
version = "0.1.0"
edition = "2021"
publish = false

[dependencies]
bcs = "0.1"
once_cell = "1"
parking_lot = "0.12"
rmp-serde = "1"
rocksdb = { version = "0.18", default-features = false }
ruc = "1"
serde = { version = "1", features = ["derive"] }
serde_json = "1"
