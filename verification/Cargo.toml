[package]
name = "webrtc_session"
version = "0.1.0"
edition = "2021"
publish = false

[dependencies]
axum = "*"
dotenv = "*"
redis = "*"
serde = { version = "*", features = ["derive"] }
serde_json = "*"
tokio = { version = "*", features = ["full"] }
