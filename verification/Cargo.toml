[package]
name = "tsdb"
version = "0.1.0"
edition = "2021"
publish = false

[dependencies]
rocksdb = "*"
chrono = "0.4"

[dev-dependencies]
bincode = "1"
serde = "1"
