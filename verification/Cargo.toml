[package]
name = "matching_engine"
version = "0.1.0"
edition = "2021"
publish = false

[dependencies]
crc32fast = "1"
uuid = { version = "1", features = ["v4"] }
chrono = "0.4"
rust_decimal = "1"
serde = { version = "1", features = ["derive"] }
bincode = "1"
anyhow = "1"
clap = { version = "4", features = ["derive"] }
tokio = { version = "1", features = ["fs", "io-util", "rt", "rt-multi-thread", "macros", "sync"] }
parking_lot = "0.12"
