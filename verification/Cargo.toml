[package]
name = "mynd"
version = "0.1.0"
edition = "2021"
publish = false

[dependencies]
anyhow = "1"
chrono = { version = "0.4", features = ["serde"] }
clap = { version = "4", features = ["derive"] }
colored = "*"
confy = "*"
dashmap = "5"
serde = { version = "1", features = ["derive"] }
serde_json = "1"
sha256 = { version = "1", default-features = false }
thiserror = "1"
tokio = { version = "1", features = ["rt", "io-std", "io-util", "time", "macros"] }
tower-lsp = "0.20"
