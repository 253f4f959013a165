[package]
name = "wordle_solver"
version = "0.1.0"
edition = "2021"
publish = false

[dependencies]
anyhow = "1"
chrono = "0.4"
rand = "0.9"
reqwest = { version = "0.12", features = ["blocking", "json"] }
roaring = "0.10"
serde = { version = "1", features = ["derive"] }
