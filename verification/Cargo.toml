[package]
name = "blaze"
version = "0.1.0"
edition = "2021"
publish = false

[dependencies]
blake3 = "*"
zstd = "*"
lz4_flex = "*"
num_cpus = "*"
clap = { version = "*", features = ["derive"] }
serde = { version = "*", features = ["derive"] }
serde_json = "*"
rusqlite = { version = "*", features = ["bundled"] }
fs2 = "*"
walkdir = "*"
