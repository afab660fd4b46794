[package]
name = "chaser"
version = "0.1.0"
edition = "2021"
publish = false

[dependencies]
anyhow = "*"
clap = "*"
csv = "*"
dirs = "*"
notify = "*"
owo-colors = "*"
serde = { version = "*", features = ["derive"] }
serde_json = "*"
serde_yaml_ng = "*"
sys-locale = "*"
toml = "*"
