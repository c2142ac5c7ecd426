[package]
name = "crawlify"
version = "0.1.0"
edition = "2021"
publish = false

[dependencies]
priority-queue = "*"
aho-corasick = "*"
xxhash-rust = { version = "*", features = ["xxh3"] }
url = "*"
serde_json = "*"
chrono = "*"
html5ever = "*"
readability = "*"
tokio = { version = "*", features = ["macros", "rt-multi-thread", "time", "sync", "fs", "io-util"] }
reqwest = { version = "*", default-features = false, features = ["rustls-tls"] }
rusqlite = { version = "*", features = ["bundled"] }
clap = { version = "*", features = ["derive"] }
serde = { version = "*", features = ["derive"] }
serde_yaml = "*"
humantime-serde = "*"
anyhow = "*"
