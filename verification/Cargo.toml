[package]
name = "olsync"
version = "0.1.0"
edition = "2021"
publish = false

[dependencies]
anyhow = "=1.0.104"
bytes = "=1.12.1"
chrono = "=0.4.45"
clap = "=4.6.7"
colored = "=3.1.1"
cookie = "=0.18.2"
dirs = "=7.0.0"
env_logger = "=0.11.11"
fs_extra = "=1.3.0"
headless_chrome = "=0.9.0"
inquire = "=0.9.4"
log = "=0.4.34"
reqwest = { version = "=0.12.28", default-features = false, features = ["rustls-tls", "multipart"] }
serde = { version = "=1.0.229", features = ["derive"] }
serde_json = "=1.0.151"
spinoff = "=0.8.0"
tokio = { version = "=1.53.2", features = ["rt-multi-thread", "macros"] }
zip-extract = "=0.4.1"
