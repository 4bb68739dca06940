[package]
name = "flashdir"
version = "0.1.0"
edition = "2021"
publish = false

[dependencies]
lru = { version = "=0.18.5", default-features = false }
rusqlite = { version = "=0.40.2", features = ["bundled"] }
zstd = "=0.14.0"
uuid = { version = "=1.27.0", features = ["v4"] }
chrono = "=0.4.45"
num_cpus = "=1.17.0"
