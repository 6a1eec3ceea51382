[package]
name = "gapped"
version = "0.1.0"
edition = "2021"
publish = false

[dependencies]
clap = { version = "4", features = ["derive"] }
crossbeam-channel = "0.5"
env_logger = "0.11"
indicatif = "0.17"
log = "0.4"
nix = { version = "0.29", features = ["fs", "user", "time"] }
rayon = "1"
rmp-serde = "1"
serde = { version = "1", features = ["derive"] }
tempfile = "3"
thiserror = "2"
walkdir = "2"
xxhash-rust = { version = "0.8", features = ["xxh3"] }
zstd = "0.13"
