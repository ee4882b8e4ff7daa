[package]
name = "trow"
version = "0.1.0"
edition = "2021"
publish = false

[dependencies]
rust-argon2 = "*"
serde = { version = "*", features = ["derive"] }
serde_json = "*"
serde_yaml = "*"
sha2 = "*"
uuid = { version = "*", features = ["v4"] }
