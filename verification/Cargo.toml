[package]
name = "visible"
version = "0.1.0"
edition = "2021"
publish = false

[dependencies]
coven = "*"
dirs = "*"
hex = "0.4"
serde_yaml = "0.9"
thiserror = "*"
tokio = { version = "1", features = ["rt-multi-thread", "macros", "sync"] }
tracing = "0.1"
tracing-subscriber = { version = "0.3", features = ["env-filter", "fmt"] }
keyring-core = "*"
uniffi = "*"
