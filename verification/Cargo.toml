[package]
name = "requiem-core"
version = "0.1.0"
edition = "2021"
publish = false

[dependencies]
uuid = { version = "=1.29.0", features = ["v4"] }
sha2 = "=0.10.9"
serde = { version = "=1.0.229", features = ["derive"] }
serde_yaml = "=0.9.34"
toml = "=0.8.23"
chrono = { version = "=0.4.45", features = ["serde"] }
walkdir = "=2.5.0"
petgraph = "=0.8.3"
regex = "=1.13.1"
unicode-width = "=0.2.3"
clap = { version = "=4.6.7", features = ["derive"] }
clap_complete = "4"
anyhow = "=1.0.104"
serde_json = "=1.0.154"
