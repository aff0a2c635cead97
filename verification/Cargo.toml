[package]
name = "verseengine"
version = "0.1.0"
edition = "2021"
publish = false

[dependencies]
rand = "*"
regex = "*"
mongodb = "*"
serde = { version = "*", features = ["derive"] }
serde_with = "*"
tokio = { version = "*", features = ["full"] }
futures = "*"
chrono = "*"
