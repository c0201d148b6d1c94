[package]
name = "songs_history"
version = "0.1.0"
edition = "2021"
publish = false

[dependencies]
clap = { version = "4", features = ["derive"] }
git2 = "*"
serde_json = "1"
time = { version = "0.3", features = ["formatting"] }
