[package]
name = "app_store"
version = "0.1.0"
edition = "2021"
publish = false

[dependencies]
futures = "=0.3.34"
heed = "=0.22.1"
rmp-serde = "=1.3.1"
storekey = "=0.11.0"
tokio = { version = "=1.54.1", features = ["rt", "rt-multi-thread", "sync", "time"] }
