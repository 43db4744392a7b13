[package]
name = "opencrab"
version = "0.1.0"
edition = "2021"
publish = false

[dependencies]
serde_json = "=1.0.154"
serde = { version = "=1.0.229", features = ["derive"] }
serde_yaml = "0.9"
rusqlite = { version = "=0.32.1", features = ["bundled"] }
sqlite-vec = "=0.1.9"
reqwest = { version = "=0.12.28", default-features = false, features = ["json"] }
tokio = { version = "=1.54.1", features = ["full"] }
tokio-tungstenite = "=0.24.0"
futures-util = "=0.3.34"
async-trait = "=0.1.92"
uuid = { version = "=1.29.0", features = ["v4"] }
tempfile = "=3.27.0"
