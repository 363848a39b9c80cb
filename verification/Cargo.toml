[package]
name = "coruscant_subscriber"
version = "0.1.0"
edition = "2021"
publish = false

[dependencies]
chashmap = "2.2"
itertools = "0.10"
log = "0.4"
serde = { version = "1", features = ["derive"] }
serde_json = "1"
tokio = { version = "1", features = ["time"] }
tracing = "0.1"
tracing-subscriber = { version = "0.3", default-features = false, features = ["registry", "std"] }
