[package]
name = "git_bluff"
version = "0.2.1"
edition = "2021"
publish = false

[dependencies]
anyhow = "1"
chrono = "0.4"
clap = { version = "4", features = ["derive"] }
git2 = { version = "*", default-features = false }
ignore = "0.4"
serde = { version = "1", features = ["derive"] }
serde_yaml = "0.9"
