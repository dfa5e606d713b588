[package]
name = "rimworld_xml"
version = "0.1.0"
edition = "2021"
publish = false

[dependencies]
anyhow = "1"
chrono = "0.4"
clap = "4"
quick-xml = "0.31"
serde = { version = "1", features = ["derive"] }
serde_json = "1"
walkdir = "2"
zstd = { version = "0.13", features = ["zstdmt"] }
