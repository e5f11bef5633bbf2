[package]
name = "task_distributor"
version = "0.1.0"
edition = "2021"
publish = false

[dependencies]
anyhow = "1"
axum = "0.4"
base64 = "0.13"
csv = "1"
deadpool-postgres = "0.10"
dotenv = "0.15"
envy = "0.4"
rustls = "0.20"
serde = { version = "1", features = ["derive"] }
tokio = { version = "1", features = ["full"] }
tokio-postgres = "0.7"
tokio-postgres-rustls = "0.9"
tower-http = { version = "0.2", features = ["auth"] }
