[package]
name = "micromouse"
version = "0.1.0"
edition = "2021"
publish = false

[dependencies]
console = "*"
derive_more = { version = "2", features = ["full"] }
futures-util = "*"
log = "*"
serde = { version = "1", features = ["derive"] }
serde_json = "1"
thiserror = "*"
tokio = { version = "1", features = ["full"] }
tokio-tungstenite = "*"
tokio-util = "*"
tracing = "*"
tracing-subscriber = { version = "*", features = ["env-filter"] }
tungstenite = "*"

[dev-dependencies]
rand = "0.8"
