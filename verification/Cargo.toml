[package]
name = "gistdb"
version = "0.1.0"
edition = "2021"
publish = false

[dependencies]
bloom = "*"
uuid = { version = "*", features = ["v4"] }
serde = { version = "*", features = ["derive"] }
serde_json = "*"
chrono = "*"
