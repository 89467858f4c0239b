[package]
name = "odds"
version = "0.1.0"
edition = "2021"
publish = false

[dependencies]
pathfinding = "4"
serde = { version = "1", features = ["derive"] }
serde_json = "1"
serde_with = "3"
anyhow = "1"
clap = { version = "4", features = ["derive"] }
