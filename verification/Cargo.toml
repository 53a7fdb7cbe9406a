[package]
name = "drivedriver"
version = "0.1.0"
edition = "2021"
publish = false

[dependencies]
chrono = "0.4"
walkdir = "2"
serde = "1"
serde_derive = "1"
serde_json = "1"
dirs = "*"
reqwest = { version = "*", default-features = false, features = ["blocking", "json"] }
