[package]
name = "grep_app_cli"
version = "0.1.0"
edition = "2021"
publish = false

[dependencies]
anyhow = "*"
clap = { version = "*", features = ["derive"] }
rmcp = { version = "=3.5.0", features = ["client", "transport-streamable-http-client-reqwest", "reqwest"] }
serde = { version = "*", features = ["derive"] }
serde_json = "*"
syntect = "=5.3.0"
terminal-light = "*"
tokio = { version = "*", features = ["macros", "rt-multi-thread"] }
