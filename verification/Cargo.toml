[package]
name = "fantoch"
version = "0.1.0"
edition = "2021"
publish = false

[dependencies]
permutator = "0.4"
serde = { version = "1", features = ["derive"] }
serde_json = "1"
