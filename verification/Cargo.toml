[package]
name = "clipwise"
version = "0.1.0"
edition = "2021"
publish = false

[dependencies]
eframe = { version = "=0.28.1", default-features = false, features = ["glow"] }
egui = "=0.28.1"
arboard = { version = "=3.4.1", default-features = false }
serde = { version = "1.0", features = ["derive"] }
serde_json = "1.0"
sled = "=0.34.7"
chrono = { version = "=0.4.45", features = ["serde"] }
uuid = { version = "1.8", features = ["v4"] }
fuzzy-matcher = "=0.3.7"
crossbeam-channel = "=0.5.17"
