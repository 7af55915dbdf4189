[package]
name = "whenfs"
version = "0.1.0"
edition = "2021"
publish = false

[dependencies]
chrono = "0.4"
rusqlite = { version = "0.37", features = ["bundled"] }
fuser = { version = "0.15", default-features = false }
libc = "0.2"
