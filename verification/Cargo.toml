[package]
name = "topos_tce"
version = "0.1.0"
edition = "2021"
publish = false

[dependencies]
hex = "0.4"
serde = { version = "1", features = ["derive"] }
figment = { version = "0.10", features = ["toml"] }
thiserror = "1"
uuid = { version = "1", features = ["v4"] }
prost = "0.12"
tokio = { version = "1", features = ["sync", "rt", "macros"] }
tokio-util = "0.7"
tokio-stream = "0.1"
futures = "0.3"
