[package]
name = "diary_store"
version = "0.1.0"
edition = "2021"
publish = false

[dependencies]
aes-gcm = "0.10"
chrono = "0.4"
secrecy = "0.8"
rand = "0.8"
uuid = { version = "1", features = ["v4"] }
rusqlite = { version = "*", features = ["bundled"] }
r2d2 = "*"
r2d2_sqlite = "*"
directories = "*"

[dev-dependencies]
serde_json = "1"
