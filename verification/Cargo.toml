[package]
name = "echotrap"
version = "0.2.0"
edition = "2021"
publish = false

[dependencies]
axum = "0.7"
clap = { version = "4", features = ["derive"] }
lru = "0.12"
owo-colors = "4"
rand = "0.8"
serde = { version = "1", features = ["derive"] }
socket2 = { version = "0.5", features = ["all"] }
thiserror = "1"
tokio = { version = "1", features = ["full"] }
toml = "0.8"
tracing = "0.1"
tracing-appender = "0.2"
tracing-subscriber = { version = "0.3", features = ["env-filter", "json"] }
