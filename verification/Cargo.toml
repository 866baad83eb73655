[package]
name = "cowbump"
version = "0.1.0"
edition = "2021"
publish = false

[dependencies]
anyhow = "1"
serde = { version = "1", features = ["derive"] }
rmp-serde = "1"
zstd = "*"
walkdir = "2"
directories = "*"
