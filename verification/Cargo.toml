[package]
name = "cmd-transformer"
version = "0.1.0"
edition = "2021"
publish = false

[dependencies]
anyhow = "1"
candle-core = "0.9"
candle-nn = "0.9"
rand = "0.8"
rusqlite = { version = "0.32", features = ["bundled"] }
