[package]
name = "soroscope"
version = "0.1.0"
edition = "2021"
publish = false

[dependencies]
soroban-sdk = "29"
hmac = "=0.12.1"
sha2 = "=0.10.9"
hex = "=0.4.3"
uuid = { version = "=1.29.0", features = ["v4", "serde"] }
serde = { version = "=1.0.229", features = ["derive"] }
serde_json = "=1.0.154"
chrono = { version = "=0.4.45", features = ["serde"] }
reqwest = { version = "=0.12.28", default-features = false, features = ["json"] }
tokio = { version = "=1.54.1", features = ["rt-multi-thread", "sync", "time", "macros"] }
thiserror = "=1.0.69"
tracing = "=0.1.44"

[dev-dependencies]
soroban-sdk = { version = "29", features = ["testutils"] }
