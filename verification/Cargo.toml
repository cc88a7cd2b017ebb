[package]
name = "game_rules"
version = "0.1.0"
edition = "2021"
publish = false

[dependencies]
rand = "0.8"
time = "0.3"
uuid = { version = "1", features = ["v4"] }
serde = { version = "1", features = ["derive"] }
serde_json = "1"
tokio = { version = "1", features = ["sync", "rt", "macros", "time"] }
tracing = "0.1"
