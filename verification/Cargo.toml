[package]
name = "viddupe"
version = "0.2.0"
edition = "2021"
publish = false

[dependencies]
anyhow = "=1.0.104"
chrono = { version = "=0.4.45", features = ["serde"] }
clap = { version = "=4.6.7", features = ["derive"] }
dialoguer = "=0.11.0"
dunce = "=1.0.5"
env_logger = "=0.11.11"
futures = "=0.3.34"
humansize = "=2.1.3"
ignore = "=0.4.34"
image = { version = "=0.23.14", default-features = false, features = ["png"] }
img_hash = "=3.2.0"
indicatif = "=0.17.11"
log = "=0.4.35"
regex = "=1.13.1"
rusqlite = { version = "=0.31.0", features = ["bundled"] }
serde = { version = "=1.0.229", features = ["derive"] }
serde_json = "=1.0.154"
tokio = { version = "=1.54.1", features = ["rt-multi-thread", "macros", "process", "fs", "io-util", "sync"] }
trash = "=3.3.1"
xxhash-rust = { version = "=0.8.19", features = ["xxh3"] }
