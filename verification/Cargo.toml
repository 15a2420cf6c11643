[package]
name = "woodsync"
version = "0.1.0"
edition = "2021"
publish = false

[dependencies]
base64 = "=0.22.1"
chrono = "=0.4.45"
tokio = { version = "=1.53.2", features = ["full"] }
warp = { version = "=0.4.3", features = ["server", "websocket"] }
futures-util = "=0.3.34"
serde_json = "=1.0.151"
rusqlite = { version = "*", features = ["bundled"] }

[dev-dependencies]
uuid = { version = "=1.27.0", features = ["v4"] }
