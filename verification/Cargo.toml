[package]
name = "parrun"
version = "0.1.0"
edition = "2021"
publish = false

[dependencies]
clap = { version = "3", features = ["derive"] }
indicatif = "0.17"
tempfile = "3"
tokio = { version = "1", features = ["macros", "process", "rt-multi-thread", "sync"] }
