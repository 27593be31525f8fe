[package]
name = "tmt"
version = "0.1.0"
edition = "2021"
publish = false

[dependencies]
zip = { version = "=9.2.2", default-features = false, features = ["deflate"] }
csv = "=1.4.0"
serde = { version = "=1.0.229", features = ["derive"] }
serde_json = "=1.0.154"
regex = "=1.13.1"
axum = { version = "=0.8.9", features = ["multipart"] }
tokio = { version = "=1.54.1", features = ["full"] }
reqwest = { version = "=0.12.28", default-features = false, features = ["json", "rustls-tls"] }
tower-http = { version = "=0.7.1", features = ["cors", "fs"] }
tracing = "=0.1.44"
tracing-subscriber = { version = "=0.3.23", features = ["env-filter"] }
uuid = { version = "=1.29.0", features = ["v4"] }
tempfile = "=3.27.0"
dotenvy = "=0.15.7"
docx-rs = "=0.4.22"
unicode-segmentation = "1"
