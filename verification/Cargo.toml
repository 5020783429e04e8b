[package]
name = "rtcdb"
version = "0.1.0"
edition = "2021"
publish = false

[dependencies]
lz4_flex = { version = "0.11", default-features = false, features = ["std", "safe-encode", "safe-decode"] }
anyhow = "1"
serde = { version = "1", features = ["derive"] }
serde_json = "1"
