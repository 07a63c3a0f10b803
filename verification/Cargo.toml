[package]
name = "iptv_epg"
version = "0.1.0"
edition = "2021"
publish = false

[dependencies]
flate2 = "*"
axum = { version = "*", features = ["multipart"] }
tokio = { version = "*", features = ["rt-multi-thread", "macros", "net", "time", "sync"] }
reqwest = { version = "*", default-features = false }
serde = { version = "*", features = ["derive"] }
serde_json = "*"
tower-http = { version = "*", features = ["cors"] }
