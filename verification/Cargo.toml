[package]
name = "deck_playtime"
version = "0.1.0"
edition = "2021"
publish = false

[dependencies]
clap = { version = "4", features = ["derive"] }
env_logger = "0.11"
log = "0.4"
rusqlite = { version = "0.32", features = ["bundled"] }
signal-hook = "0.3"
