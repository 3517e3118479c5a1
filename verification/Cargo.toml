[package]
name = "regression_charts"
version = "0.1.0"
edition = "2021"
publish = false

[dependencies]
charts = "*"
rusqlite = { version = "*", features = ["bundled"] }
serde = { version = "*", features = ["derive"] }
serde_json = "*"
ureq = "*"
