[package]
name = "clive"
version = "0.1.0"
edition = "2021"
publish = false

[dependencies]
anyhow = "1"
clap = { version = "4", features = ["derive"] }
dirs = "5"
env_logger = "0.11"
hound = "3"
log = "0.4"
rusqlite = { version = "0.32", features = ["bundled"] }
serde = { version = "1", features = ["derive"] }
serde_json = "1"
sqlite-vec = "0.1"
tempfile = "3"
toml = "0.8"
ureq = "3"
whisper-rs = "0.14"
zerocopy = { version = "0.8", features = ["derive"] }
