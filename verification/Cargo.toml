[package]
name = "cntl"
version = "0.2.0"
edition = "2021"
publish = false

[dependencies]
blake3 = "1"
similar = "2"
clap = { version = "4", features = ["derive"] }
rusqlite = { version = "*", features = ["bundled"] }
walkdir = "2"
directories = "*"
chrono = "0.4"
anyhow = "1"

[dev-dependencies]
postcard = { version = "1", default-features = false, features = ["alloc"] }
bincode = { version = "2", features = ["serde"] }
