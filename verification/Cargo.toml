[package]
name = "phire"
version = "0.1.0"
edition = "2021"
publish = false

[dependencies]
chinese-number = "*"
serde = { version = "1", features = ["derive"] }
serde_json = "1"
anyhow = "1"
macroquad = "0.4"
rustc-hash = "2"
