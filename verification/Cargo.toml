[package]
name = "runx"
version = "0.3.0"
edition = "2021"
publish = false

[dependencies]
anyhow = "1"
chrono = "0.4"
clap = { version = "4", features = ["derive"] }
colored = "2"
glob = "0.3"
hex = "0.4"
rusqlite = { version = "0.31", features = ["bundled"] }
serde = { version = "1", features = ["derive"] }
sha2 = "0.10"
shellexpand = "3"
tokio = { version = "1", features = ["rt-multi-thread", "sync", "time", "macros"] }
toml = "0.8"
uuid = { version = "1", features = ["v4"] }
