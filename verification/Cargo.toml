[package]
name = "telegram_backup"
version = "0.1.0"
edition = "2021"
publish = false

[dependencies]
mp4parse = "*"
serde = { version = "1", features = ["derive"] }
serde_json = "1"
sqlite = "*"
tokio = { version = "1", features = ["sync", "time", "rt"] }
log = "0.4"
grammers-client = "*"
