[package]
name = "classification_store"
version = "0.1.0"
edition = "2021"
publish = false

[dependencies]
napi = "2"
napi-derive = "2"
rusqlite = "*"
serde = { version = "1", features = ["derive"] }
