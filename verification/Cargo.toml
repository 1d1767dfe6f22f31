[package]
name = "event_watcher"
version = "0.1.0"
edition = "2021"
publish = false

[dependencies]
anyhow = "*"
redis = "*"
reqwest = { version = "*", default-features = false, features = ["json"] }
serde = "*"
tokio = { version = "*", features = ["macros", "rt-multi-thread", "signal", "sync", "time"] }
tracing = "*"
