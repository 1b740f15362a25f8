[package]
name = "rsync_core"
version = "0.1.0"
edition = "2021"
publish = false

[dependencies]
md4 = "0.10"
md-5 = "0.10"
blake2 = "0.10"
digest = "0.10"
zstd = "0.13"
lz4_flex = "0.11"
flate2 = "1"
clap = { version = "4", features = ["derive"] }
walkdir = "2"
