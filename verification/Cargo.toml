[package]
name = "goal"
version = "0.1.0"
edition = "2021"
publish = false

[dependencies]
rand = "*"
rusqlite = { version = "*", features = ["bundled"] }
serde = { version = "*", features = ["derive"] }
serde_json = "*"
anyhow = "*"
clap = { version = "*", features = ["derive"] }
directories = "*"
