[package]
name = "zpowergraph"
version = "0.1.0"
edition = "2021"
publish = false

[dependencies]
anyhow = "*"
clap = { version = "=4.6.7", features = ["derive"] }
env_logger = "*"
log = "*"
rand = "=0.10.3"
rumqttc = "=0.25.1"
sea-query = "=0.32.7"
sea-query-binder = { version = "=0.7.0", features = ["sqlx-sqlite"] }
serde = { version = "*", features = ["derive"] }
serde_json = "*"
sqlx = { version = "=0.8.6", default-features = false, features = ["runtime-tokio", "sqlite", "macros"] }
tokio = { version = "=1.53.2", features = ["rt-multi-thread", "macros", "time"] }
