[package]
name = "note_tracker"
version = "0.1.0"
edition = "2021"
publish = false

[dependencies]
chrono = "*"
dialoguer = "*"
itertools = "*"
lazy_static = "*"
serde = { version = "*", features = ["derive"] }
serde_json = "*"
thiserror = "*"
walkdir = "*"
