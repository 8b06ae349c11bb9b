[package]
name = "deathlog"
version = "0.1.0"
edition = "2021"
publish = false

[dependencies]
chrono = "*"
flate2 = "*"
glob = "*"
serde = { version = "*", features = ["derive"] }
serde_json = "*"
