[package]
name = "cce_notifier"
version = "0.1.0"
edition = "2021"
publish = false

[dependencies]
calloop = "0.14"
env_logger = "0.11"
log = "0.4"
png = "0.17"
tokio = { version = "1", features = ["rt-multi-thread"] }
wayland-client = "0.31"
zbus = "5"
