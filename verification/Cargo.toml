[package]
name = "concurrent_index"
version = "0.1.0"
edition = "2021"
publish = false

[dependencies]
crossbeam-skiplist = "0.1"
rand = "0.8"
serde = { version = "1", features = ["derive"] }
parking_lot = "0.12"
