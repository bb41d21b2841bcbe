[package]
name = "kitt_memory"
version = "0.1.6"
edition = "2021"
publish = false

[dependencies]
hex = "0.4"
rusqlite = { version = "0.32", features = ["bundled"] }
serde = { version = "1", features = ["derive"] }
serde_json = "1"
sha2 = "0.10"
thiserror = "1"
uuid = { version = "1", features = ["v4"] }
