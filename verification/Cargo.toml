[package]
name = "fast_nix_gc"
version = "0.1.0"
edition = "2021"
publish = false

[dependencies]
anyhow = "=1.0.104"
foldhash = "=0.2.0"
harmonia-store-core = "=0.0.0-alpha.0"
harmonia-utils-hash = "=0.0.0-alpha.0"
log = "=0.4.35"
nix = { version = "=0.31.3", features = ["dir", "fs", "mount", "poll", "sched", "time", "user"] }
pico-args = "=0.5.0"
rand = "0.9"
rayon = "=1.12.0"
rusqlite = { version = "=0.41.1", features = ["bundled"] }
tokio = { version = "=1.54.1", features = ["full"] }
walkdir = "=2.5.0"
