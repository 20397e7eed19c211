[package]
name = "foyer-storage"
version = "0.1.0"
edition = "2021"
publish = false

[dependencies]
async-channel = "1"
bytes = "1"
tokio = { version = "1", features = ["macros", "rt", "sync"] }
tracing = "0.1"
twox-hash = "1"
