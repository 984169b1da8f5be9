[package]
name = "fakecord"
version = "0.1.0"
edition = "2021"
publish = false

[dependencies]
bincode = "1"
serde = { version = "1", features = ["derive"] }
uuid = { version = "1", features = ["v4"] }
chrono = "0.4"
mongodb = "2"
bson = "2"
tokio = { version = "1", features = ["full"] }
futures = "0.3"
crossbeam = "0.8"
