[package]
name = "javelin"
version = "0.0.1"
edition = "2021"
publish = false

[dependencies]
blake3 = "=1.8.7"
chrono = { version = "=0.4.45", default-features = false, features = ["clock", "std"] }
clap = { version = "=4.6.7", features = ["derive"] }
clap_complete = "=4.6.11"
diffy = "=0.5.2"
fs2 = "=0.4.3"
globset = "=0.4.21"
libc = "=0.2.191"
rusqlite = { version = "=0.41.1", features = ["bundled"] }
serde = { version = "=1.0.229", features = ["derive"] }
serde_json = "=1.0.154"
tempfile = "=3.27.0"
toml = "=1.1.8"
ulid = "=3.0.0"
wait-timeout = "=0.2.1"
walkdir = "=2.5.0"
zstd = "=0.14.3"
