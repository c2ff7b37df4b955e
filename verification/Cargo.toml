[package]
name = "card_index"
version = "0.1.0"
edition = "2021"
publish = false

[dependencies]
regex = "=1.13.1"
serde_yaml = "=0.9.34"
serde = { version = "=1.0.229", features = ["derive"] }
tokio = { version = "=1.54.1", features = ["rt"] }
tauri = { version = "=2.12.5", default-features = false }
notify = "6"
