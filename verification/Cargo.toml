[package]
name = "dupscan"
version = "0.1.0"
edition = "2021"
publish = false

[dependencies]
clap = "=2.34.0"
humansize = "=1.1.1"
indicatif = "0.17"
linear-map = "=1.2.0"
rusqlite = { version = "=0.41.0", features = ["backup", "bundled"] }
twox-hash = { version = "=1.6.3", default-features = false }
walkdir = "=2.5.0"
