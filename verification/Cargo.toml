[package]
name = "midi_access"
version = "0.1.0"
edition = "2021"
publish = false

[dependencies]
serde_yaml = "0.9"
serde_json = "1"
serde = { version = "1", features = ["derive"] }
anyhow = "1"
clap = { version = "4", features = ["derive"] }
env_logger = "0.11"
log = "0.4"
midir = "*"
rmcp = { version = "*", features = ["server", "macros", "transport-io"] }
schemars = "0.8"
thiserror = "2"
tokio = { version = "1", features = ["rt-multi-thread", "macros"] }
