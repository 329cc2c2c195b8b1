[package]
name = "friend_link"
version = "0.1.0"
edition = "2021"
publish = false

[dependencies]
sha2 = "0.10"
hmac = "0.12"
chrono = "0.4"
uuid = { version = "1", features = ["v4"] }
globset = "0.4"
serde = { version = "1", features = ["derive"] }
serde_json = "1"

[dev-dependencies]
base64 = "0.21"
