[package]
name = "malstrom_lib"
version = "0.1.0"
edition = "2021"
publish = false

[dependencies]
roxmltree = "*"
flate2 = "*"
rusqlite = { version = "*", features = ["bundled"] }
chrono = "*"
serde = { version = "1", features = ["derive"] }
serde_json = "1"
anyhow = "1"
