[package]
name = "shuttlings_cch23"
version = "0.1.0"
edition = "2021"
publish = false

[dependencies]
anyhow = "*"
axum = { version = "*", features = ["ws"] }
futures = "*"
html-escape = "*"
rbase64 = "*"
regex = "*"
serde = { version = "*", features = ["derive"] }
serde_json = "*"
sha256 = "*"
tokio = { version = "*", features = ["full"] }
