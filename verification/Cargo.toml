[package]
name = "bettercurl"
version = "0.1.0"
edition = "2021"
publish = false

[dependencies]
clap = { version = "4", features = ["derive"] }
colored = "2"
reqwest = { version = "0.12", features = ["multipart"] }
serde_json = "1"
tokio = { version = "1", features = ["macros", "rt-multi-thread"] }
