[package]
name = "eadapt_needs_analysis"
version = "0.1.0"
edition = "2021"
publish = false

[dependencies]
regex = "1"
aho-corasick = "1"
chrono = "0.4"
serde = { version = "1", features = ["derive"] }
serde_json = "1"
csv = "1"
anyhow = "1"
clap = { version = "4", features = ["derive"] }
bincode = "1"
term-data-table = "*"
statrs = "*"
