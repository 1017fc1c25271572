[package]
name = "monolith"
version = "0.1.0"
edition = "2021"
publish = false

[dependencies]
sled = "0.34"
crc = "1"
uuid = { version = "1", features = ["v4"] }
serde = { version = "1", features = ["derive"] }
serde_json = "1"
serde_yaml = "0.9"
clap = "4"
log = "0.4"
env_logger = "0.11"
tiny_http = "0.12"
snap = "1"
rand = "0.8"
rayon = "1"
futures = "0.3"
tikv-client = "*"

[dev-dependencies]
tempfile = "3"
