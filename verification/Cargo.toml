[package]
name = "flnder"
version = "0.1.1"
edition = "2021"
publish = false

[dependencies]
anyhow = "=1.0.104"
base64 = "=0.22.1"
chrono = { version = "=0.4.45", features = ["serde"] }
docx-rs = "=0.4.22"
log = "0.4"
pdf-extract = "=0.12.1"
quick-xml = "=0.41.0"
regex = "=1.13.1"
reqwest = { version = "=0.12.28", default-features = false, features = ["json", "rustls-tls"] }
rusqlite = { version = "=0.41.1", features = ["bundled"] }
serde = { version = "=1.0.229", features = ["derive"] }
serde_json = "=1.0.154"
sha2 = "=0.10.9"
tokio = { version = "=1.54.1", features = ["process", "sync", "time"] }
uuid = { version = "=1.29.0", features = ["v4"] }
zip = { version = "=8.6.0", default-features = false, features = ["deflate"] }
