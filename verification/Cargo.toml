[package]
name = "pm3"
version = "0.1.0"
edition = "2021"
publish = false

[dependencies]
shell-words = "1"
nix = { version = "0.30", features = ["signal", "process", "term", "fs"] }
serde = { version = "1", features = ["derive"] }
serde_json = "1"
toml = "0.8"
tokio = { version = "1", features = ["full"] }
clap = { version = "4", features = ["derive"] }
chrono = "0.4"
color-eyre = "0.6"
comfy-table = "7"
owo-colors = "4"
dirs = "5"
thiserror = "1"

[dev-dependencies]
tempfile = "3"
