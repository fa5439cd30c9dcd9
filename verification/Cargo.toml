[package]
name = "wrasm"
version = "0.1.0"
edition = "2021"
publish = false

[dependencies]
anyhow = "=1.0.104"
chrono = "=0.4.45"
resvg = "=0.49.0"
rusqlite = { version = "=0.41.1", features = ["bundled"] }
