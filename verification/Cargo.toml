[package]
name = "ar_matcher"
version = "0.1.0"
edition = "2021"
publish = false

[dependencies]
axum = { version = "=0.7.9", features = ["multipart"] }
base64 = "=0.22.1"
calamine = { version = "=0.26.1", features = ["dates"] }
chrono = "=0.4.45"
dotenvy = "=0.15.7"
regex = "=1.13.1"
reqwest = { version = "=0.12.28", default-features = false, features = ["json", "rustls-tls"] }
rust_xlsxwriter = "=0.102.0"
serde = { version = "=1.0.229", features = ["derive"] }
serde_json = "=1.0.154"
tokio = { version = "=1.54.1", features = ["full"] }
tower-http = { version = "=0.6.11", features = ["cors"] }
uuid = { version = "=1.29.0", features = ["v4"] }
zip = { version = "~2.4", default-features = false, features = ["deflate"] }
