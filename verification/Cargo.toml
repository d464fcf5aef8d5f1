[package]
name = "markov_brain"
version = "0.1.0"
edition = "2021"
publish = false

[dependencies]
markov = "*"
rand = "0.8"
serde_yaml = "*"
serde = { version = "1", features = ["derive"] }
redis = { version = "*", features = ["tokio-comp"] }
tokio = { version = "1", features = ["full"] }
futures = "0.3"
reqwest = { version = "0.11", features = ["json"] }
telegram-bot = "*"
log = "0.4"
pretty_env_logger = "*"
anyhow = "1"
