[package]
name = "chat_relay"
version = "0.1.0"
edition = "2021"
publish = false

[dependencies]
chrono = "=0.4.45"
tokio = { version = "=1.53.2", features = ["full"] }
tokio-websockets = { version = "=0.13.3", features = ["server", "sha1_smol"] }
futures-util = { version = "=0.3.34", features = ["sink"] }

[dev-dependencies]
serde_json = "=1.0.151"
