[package]
name = "raft_sim"
version = "0.1.0"
edition = "2021"
publish = false

[dependencies]
rand = "*"
serde = { version = "*", features = ["derive"] }
serde_json = "*"
serde_repr = "*"
tokio = { version = "*", features = ["rt", "io-std", "io-util", "sync", "time", "macros"] }
once_cell = "*"
