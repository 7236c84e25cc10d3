[package]
name = "psmsg"
version = "0.1.0"
edition = "2021"
publish = false

[dependencies]
anyhow = "1"
async-std = "1"
futures = "0.3"
serde = { version = "1", features = ["derive"] }
serde_json = "1"
