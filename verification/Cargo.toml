[package]
name = "torrentoxide_core"
version = "0.1.0"
edition = "2021"
publish = false

[dependencies]
regex = "1"
torrent-name-parser = "*"
quick-xml = "*"
strsim = "*"
serde = { version = "1", features = ["derive"] }
serde_json = "1"
anyhow = "1"
walkdir = "2"
chrono = "0.4"
tokio = { version = "1", features = ["rt-multi-thread", "macros", "time", "sync"] }
axum = "0.8"
reqwest = { version = "0.12", default-features = false, features = ["json", "rustls-tls"] }
redb = "*"
fs4 = "*"
dotenvy = "*"
tracing = "0.1"
tracing-subscriber = "0.3"
