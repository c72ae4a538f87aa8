[package]
name = "notification_scheduler"
version = "0.1.0"
edition = "2021"
publish = false

[dependencies]
chrono = "*"
serde = { version = "*", features = ["derive"] }
serde_json = "*"
log = "*"
tokio = { version = "*", features = ["rt-multi-thread", "time", "macros"] }
