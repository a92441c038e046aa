[package]
name = "kv_cache"
version = "0.1.0"
edition = "2021"
publish = false

[dependencies]
btoi = "0.4"
bytes = "1"
dashmap = "5"
env_logger = "0.10"
hyper = { version = "0.14", features = ["server", "http1", "tcp"] }
lazy_static = "1"
log = "0.4"
prometheus = "0.13"
tokio = { version = "1", features = ["full"] }
