[package]
name = "kvstore"
version = "0.1.0"
edition = "2021"
publish = false

[dependencies]
base64 = "*"
chrono = "*"
hex = "*"
rand = "*"
rusqlite = { version = "*", features = ["bundled"] }
serde_json = "*"
uuid = { version = "*", features = ["v4"] }
