[package]
name = "fastgemma"
version = "0.1.0"
edition = "2021"

[dependencies]
memmap2 = "0.9"
serde = { version = "1", features = ["derive"] }
serde_json = "1"
