[package]
name = "yao_proxy"
version = "0.1.0"
edition = "2021"
publish = false

[dependencies]
serde = { version = "*", features = ["derive"] }
serde_json = "*"
axum = "*"
http = "*"
reqwest = { version = "*", default-features = false, features = ["stream"] }
tokio = { version = "*", features = ["full"] }
tower-http = { version = "*", features = ["cors"] }
once_cell = "*"
parking_lot = "*"
