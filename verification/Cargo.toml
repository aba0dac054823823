[package]
name = "mastodon-bluesky-sync"
version = "0.1.0"
edition = "2021"
publish = false

[dependencies]
anyhow = "1"
atrium-xrpc-client = "0.5"
bsky-sdk = "0.1"
chrono = { version = "0.4", features = ["serde"] }
clap = { version = "4", features = ["derive"] }
env_logger = "0.11"
html-escape = "0.2"
log = "0.4"
megalodon = "*"
regex = "1"
reqwest = "0.12"
serde = { version = "1", features = ["derive"] }
serde_html_form = "*"
serde_json = "1"
serde_with = "3"
tempfile = "3"
tokio = { version = "1", features = ["full"] }
toml = "0.8"
unicode-segmentation = "1"
url = "2"
voca_rs = "1"
webpage = { version = "2", default-features = false }
