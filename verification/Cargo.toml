[package]
name = "day_night_shader"
version = "0.1.0"
edition = "2021"
publish = false

[dependencies]
png = "0.17"
tokio = { version = "1", features = ["full"] }
hyper = { version = "0.14", features = ["full"] }
futures-channel = "0.3"
clap = { version = "4", features = ["derive"] }
log = "0.4"
pretty_env_logger = "0.5"
sfml = "0.21"
