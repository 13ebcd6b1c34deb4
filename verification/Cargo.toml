[package]
name = "pika"
version = "0.1.0"
edition = "2021"
publish = false

[dependencies]
anyhow = "1"
capstone = "0.12"
clap = { version = "4", features = ["derive"] }
dashmap = "6"
nid = "*"
nix = { version = "0.29", features = ["process", "ptrace", "signal", "uio", "user"] }
ratatui = "0.29"
rayon = "1"
serde = { version = "1", features = ["derive"] }
serde_json = "1"
tokio = { version = "1", features = ["io-std", "io-util", "macros", "net", "rt-multi-thread", "sync", "time"] }
tracing = "0.1"
tracing-subscriber = { version = "0.3", features = ["env-filter"] }

[dev-dependencies]
bytemuck = "1"
