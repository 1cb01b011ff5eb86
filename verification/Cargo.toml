[package]
name = "arid"
version = "0.1.0"
edition = "2021"
publish = false

[dependencies]
sha2 = "=0.10.9"
serde = { version = "=1.0.229", features = ["derive"] }
serde_json = "=1.0.154"
toml = "=0.8.23"
clap = { version = "=4.6.7", features = ["derive"] }
ignore = "=0.4.34"
rayon = "=1.12.0"
atomic-write-file = "=0.3.1"
thiserror = "=2.0.21"
