[package]
name = "tmrecv"
version = "0.1.0"
edition = "2021"
publish = false

[dependencies]
chrono = "0.4"
clap = { version = "4", features = ["derive"] }
env_logger = "0.11"
log = "0.4"
socket2 = { version = "0.5", features = ["all"] }
tokio = { version = "1", features = ["full"] }
