[package]
name = "mibox"
version = "0.1.0"
edition = "2021"
publish = false

[dependencies]
mime_guess = "*"
tokio = { version = "*", features = ["full"] }
axum = "*"
tokio-util = { version = "*", features = ["io"] }
futures = "*"
serde = { version = "*", features = ["derive"] }
serde_json = "*"
anyhow = "*"
itertools = "*"
bytes = "*"
