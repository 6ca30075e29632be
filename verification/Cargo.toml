[package]
name = "treescan"
version = "0.1.0"
edition = "2021"
publish = false

[dependencies]
serde = { version = "*", features = ["derive"] }
tauri = { version = "2", default-features = false }
