[package]
name = "twoway"
version = "0.1.0"
edition = "2021"
publish = false

[dependencies]
walkdir = "*"
filetime = "*"
serde = { version = "*", features = ["derive"] }
serde_json = "*"
