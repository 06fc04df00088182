[package]
name = "riv_archive"
version = "0.1.0"
edition = "2021"
publish = false

[dependencies]
json-patch = "0.2"
serde_json = "1"
rmp-serde = "1"
zstd = "0.9"
serde = { version = "1", features = ["derive"] }
reqwest = { version = "0.11", default-features = false, features = ["json", "rustls-tls"] }
tokio = { version = "1", features = ["rt-multi-thread", "macros"] }
progress_bar = "*"
chrono = { version = "0.4", features = ["serde"] }
