[package]
name = "ptt_analyzer"
version = "0.1.0"
edition = "2021"
publish = false

[dependencies]
regex = "*"
futures = "*"
reqwest = { version = "*", default-features = false }
scraper = "*"
serde = { version = "*", features = ["derive"] }
serde_json = "*"
tokio = { version = "*", features = ["macros", "rt-multi-thread", "time"] }
