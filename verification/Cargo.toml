[package]
name = "loki_to_slack_notification"
version = "0.1.0"
edition = "2021"
publish = false

[dependencies]
reqwest = { version = "=0.12.28", default-features = false, features = ["blocking", "json"] }
serde = { version = "=1.0.229", features = ["derive"] }
slack-hook = { version = "=0.9.1", features = ["blocking"] }
