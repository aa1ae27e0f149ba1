[package]
name = "rover_eval"
version = "0.1.0"
edition = "2021"
publish = false

[dependencies]
screeps-game-api = "0.23"
serde = { version = "1", features = ["derive"] }
serde_json = "1"
