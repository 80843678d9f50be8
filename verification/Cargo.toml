[package]
name = "memory_db"
version = "0.1.0"
edition = "2021"
publish = false

[dependencies]
bincode = "=1.3.3"
bytes = "=1.12.1"
chrono = "=0.4.45"
dashmap = "=6.2.1"
protobuf = "=2.28.0"
raft = "=0.7.0"
rand = "=0.8.8"
slog = "=2.8.2"
tokio = { version = "=1.54.1", features = ["full"] }
tracing = "=0.1.44"
tracing-slog = "=0.4.0"
tracing-subscriber = "=0.3.23"
