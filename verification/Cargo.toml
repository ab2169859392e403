[package]
name = "doo"
version = "0.1.0"
edition = "2021"
publish = false

[dependencies]
anyhow = "1"
base64 = "0.13"
clap = "4"
colored = "2"
dialoguer = { version = "0.11", features = ["fuzzy-select"] }
dirs = "5"
reqwest = { version = "0.12", default-features = false, features = ["json"] }
serde = { version = "1", features = ["derive"] }
serde_yaml = "0.9"
tempfile = "3"
tokio = { version = "1", features = ["macros", "rt-multi-thread"] }
