[package]
name = "codex_prompts"
version = "0.1.0"
edition = "2021"
publish = false

[dependencies]
serde = { version = "=1.0.229", features = ["derive"] }
serde_yaml = "=0.9.34"
clap = { version = "=4.6.7", features = ["derive"] }
clap_complete = "=4.6.11"
anyhow = "=1.0.104"
