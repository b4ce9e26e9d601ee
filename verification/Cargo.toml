[package]
name = "dnskit"
version = "0.1.0"
edition = "2021"
publish = false

[dependencies]
rand = "0.9"
hex = "0.4"
thiserror = "2"
anyhow = "1"
async-trait = "0.1"
clap = { version = "4", features = ["derive"] }
tokio = { version = "1", features = ["net", "rt", "macros", "sync"] }
tracing = "0.1"
tracing-subscriber = { version = "0.3", features = ["env-filter"] }
