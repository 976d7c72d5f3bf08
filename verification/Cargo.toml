[package]
name = "log_forensics"
version = "0.1.0"
edition = "2021"
publish = false

[dependencies]
memchr = "=2.8.3"
regex = "=1.13.1"
memmap2 = "=0.9.11"
glob = "=0.3.4"
rayon = "=1.12.0"
serde = { version = "=1.0.229", features = ["derive"] }
serde_json = "=1.0.151"
rand = "=0.10.3"
polars = { version = "=0.53.0", features = ["lazy", "json", "strings", "temporal", "regex"] }
