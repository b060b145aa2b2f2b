[package]
name = "json_diff_patch"
version = "0.1.0"
edition = "2021"
publish = false

[dependencies]
anyhow = "1"
clap = { version = "3", features = ["derive"] }
console = "0.15"
serde = { version = "1", features = ["derive"] }
serde_json = "1"
thiserror = "1"
