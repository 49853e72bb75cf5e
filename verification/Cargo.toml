[package]
name = "chat"
version = "0.1.0"
edition = "2021"
publish = false

[dependencies]
hdk = "=0.7.1"
serde = { version = "1", features = ["derive"] }
serde_json = "1"
validator = "=0.10.1"
