[package]
name = "kvasir"
version = "0.1.0"
edition = "2021"
publish = false

[dependencies]
flatbuffers = "*"
serde = { version = "1", features = ["derive"] }
serde_json = "1"
sqlparser = "*"
