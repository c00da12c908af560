[package]
name = "haex_crdt"
version = "0.1.0"
edition = "2021"
publish = false

[dependencies]
blake3 = "*"
rusqlite = { version = "*", features = ["bundled", "functions", "hooks"] }
serde = { version = "*", features = ["derive"] }
serde_json = "*"
sqlparser = "0.62"
thiserror = "*"
uhlc = "*"
uuid = { version = "*", features = ["v4"] }
