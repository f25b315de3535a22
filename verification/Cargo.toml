[package]
name = "tracker-server"
version = "0.1.0"
edition = "2021"
publish = false

[dependencies]
hex = "0.4"
data-encoding = "2"
percent-encoding = "2"
rand = "0.8"
anyhow = "1"
axum = "0.7"
clap = { version = "4", features = ["derive"] }
futures-util = { version = "0.3", features = ["sink"] }
once_cell = "1"
reqwest = { version = "0.12", default-features = false, features = ["rustls-tls"] }
serde = { version = "1", features = ["derive"] }
serde_json = "1"
tokio = { version = "1", features = ["full"] }
tokio-tungstenite = "0.21"
tracing = "0.1"
tracing-subscriber = { version = "0.3", features = ["env-filter"] }
