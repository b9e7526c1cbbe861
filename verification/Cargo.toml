[package]
name = "nea"
version = "0.1.0"
edition = "2021"
publish = false

[dependencies]
atomic-wait = "1"
chrono = { version = "=0.4.45", default-features = false, features = ["std"] }
env_logger = { version = "*", default-features = false }
http-body-util = "0.1"
hyper = { version = "=1.12.0", features = ["client", "http1", "http2"] }
libc = "0.2"
mio = { version = "0.8", features = ["os-poll", "net"] }
serde = { version = "1", features = ["derive"] }
tokio = { version = "1", features = ["net", "rt-multi-thread", "macros"] }
toml = "0.8"
