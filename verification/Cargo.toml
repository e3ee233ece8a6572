[package]
name = "word_chain"
version = "0.1.0"
edition = "2021"
publish = false

[dependencies]
rand = "0.8"
anyhow = "1"
async-std = { version = "1", features = ["attributes"] }
futures = "0.3"
clap = { version = "4", features = ["derive"] }
tokio = { version = "1", features = ["sync"] }
