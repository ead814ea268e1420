[package]
name = "sticky_pool"
version = "0.1.0"
edition = "2021"
publish = false

[dependencies]
anyhow = "1"
candle-core = "*"
candle-nn = "*"
candle-transformers = "*"
clap = { version = "4", features = ["derive"] }
hf-hub = { version = "0.4.3", default-features = false, features = ["ureq"] }
serde = { version = "1", features = ["derive"] }
serde_json = "1"
tokenizers = "*"
tokio = { version = "1", features = ["macros", "rt-multi-thread", "sync", "time"] }
