[package]
name = "vault_write"
version = "0.1.0"
edition = "2021"
publish = false

[dependencies]
sha2 = "0.10"
chrono = "0.4"
serde = { version = "1", features = ["derive"] }
serde_json = "1"
tokio = { version = "1", features = ["sync", "rt", "rt-multi-thread", "macros", "time"] }
tracing = "0.1"
tempfile = "3"
dirs = "*"
uuid = { version = "1", features = ["v4"] }
regex = "1"
lazy_static = "1"
hound = "3"
whisper-rs = "*"

[dev-dependencies]
