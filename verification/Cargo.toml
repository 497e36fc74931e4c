[package]
name = "nba_standings"
version = "0.1.0"
edition = "2021"
publish = false

[dependencies]
anyhow = "1"
chrono = "0.4"
dotenvy = "0.15"
futures = "0.3"
poise = "0.6"
reqwest = { version = "0.12", features = ["json"] }
serde = { version = "1", features = ["derive"] }
serenity = "0.12"
tokio = { version = "1", features = ["full"] }
tokio-cron-scheduler = "*"
tracing = "0.1"
tracing-subscriber = { version = "0.3", features = ["env-filter"] }

[dev-dependencies]
serde_json = "1"
