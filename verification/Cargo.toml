[package]
name = "clipboard_common"
version = "0.1.0"
edition = "2021"
publish = false

[dependencies]
sha2 = "0.10"
chrono = "0.4"
serde = { version = "1", features = ["derive"] }
toml = "*"
anyhow = "1"
rusqlite = { version = "*", features = ["bundled"] }
