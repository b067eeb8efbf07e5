[package]
name = "stream_hub"
version = "0.1.0"
edition = "2021"
publish = false

[dependencies]
anyhow = "=1.0.104"
env_logger = "0.11"
tokio = { version = "=1.53.2", features = ["rt-multi-thread", "macros", "sync", "time"] }
