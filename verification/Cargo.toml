[package]
name = "crible"
version = "0.1.0"
edition = "2021"
publish = false

[dependencies]
croaring = "*"
bincode = "1"
serde = { version = "1", features = ["derive"] }
serde_json = "1"
clap = { version = "4", features = ["derive", "env"] }
tokio = { version = "1", features = ["rt-multi-thread", "macros", "sync", "signal", "time", "net"] }
axum = "*"
parking_lot = "*"
rayon = "*"
num_cpus = "*"
redis = "*"
eyre = "*"
