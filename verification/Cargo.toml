[package]
name = "mc5_core"
version = "0.1.0"
edition = "2021"
publish = false

[dependencies]
anyhow = "=1.0.104"
axum = "=0.7.9"
clap = { version = "=4.6.7", features = ["derive"] }
figment = { version = "=0.10.19", features = ["yaml"] }
flexbuffers = "=25.12.19"
serde = { version = "=1.0.229", features = ["derive"] }
sled = "=0.34.7"
tarpc = "=0.38.0"
thiserror = "=1.0.69"
tokio = { version = "=1.54.1", features = ["full"] }
tracing = "=0.1.44"
tracing-subscriber = { version = "=0.3.23", features = ["env-filter"] }
uuid = { version = "=1.29.0", features = ["v6", "rng"] }
