[package]
name = "parasync_downloader"
version = "0.1.0"
edition = "2021"
publish = false

[dependencies]
reqwest = { version = "0.11", default-features = false, features = ["blocking", "rustls-tls"] }
tokio = { version = "1", features = ["rt-multi-thread", "sync", "macros", "time"] }
indicatif = "0.17"
humantime = "2"
