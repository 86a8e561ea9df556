[package]
name = "venue_core"
version = "0.1.0"
edition = "2021"
publish = false

[dependencies]
time = "*"
tokio = { version = "*", features = ["full"] }
axum = "*"
tower-http = { version = "*", features = ["cors"] }
serde = { version = "*", features = ["derive"] }
serde_json = "*"
futures = "*"
clap = { version = "*", features = ["derive"] }
