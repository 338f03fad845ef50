[package]
name = "saya"
version = "0.1.0"
edition = "2021"
publish = false

[dependencies]
jieba-rs = "*"
rusqlite = { version = "*", features = ["bundled"] }
r2d2 = "*"
r2d2_sqlite = "*"
sqlite-vec = "*"
tantivy = "*"
notify = "*"
rayon = "*"
serde = { version = "1", features = ["derive"] }
serde_json = "1"
thiserror = "*"
clap = { version = "4", features = ["derive"] }
anyhow = "1"
tokio = { version = "1", features = ["rt", "signal", "macros"] }
tracing = "0.1"
tracing-subscriber = { version = "0.3", features = ["env-filter", "fmt"] }
uniffi = "*"
objc2 = "*"
objc2-app-kit = "*"
objc2-foundation = "*"
