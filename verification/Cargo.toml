[package]
name = "kura_voice"
version = "0.1.0"
edition = "2021"
publish = false

[dependencies]
rand = "0.8"
anyhow = "1"
walkdir = "2"
tracing = "0.1"
tracing-subscriber = { version = "0.3", default-features = false, features = ["fmt", "env-filter"] }
tokio = { version = "1", features = ["macros", "rt-multi-thread", "signal", "sync"] }
serenity = { version = "0.12", default-features = false, features = ["client", "gateway", "cache", "model", "rustls_backend"] }
songbird = { version = "0.4", default-features = false, features = ["serenity", "gateway", "driver", "rustls"] }
