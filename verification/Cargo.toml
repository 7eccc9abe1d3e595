[package]
name = "asn1jsonl"
version = "0.1.0"
edition = "2021"
publish = false

[dependencies]
regex = "1"
anyhow = "1"
bincode = "1"
clap = { version = "4", features = ["derive"] }
memmap2 = "0.9"
rayon = "1"
serde = { version = "1", features = ["derive"] }
walkdir = "2"

[dev-dependencies]
serde_json = "1"
