[package]
name = "stembot"
version = "0.1.0"
edition = "2021"
publish = false

[dependencies]
rand = "*"
actix-web = "*"
clokwerk = "*"
tokio = { version = "*", features = ["full"] }
reqwest = { version = "*", default-features = false }
serde = { version = "*", features = ["derive"] }
serde_json = "*"
toml = "*"
clap = { version = "*", features = ["derive"] }
env_logger = "*"
log = "*"
magic-crypt = "*"
sha256 = { version = "*", default-features = false }
tracing-actix-web = "*"
anyhow = "*"
